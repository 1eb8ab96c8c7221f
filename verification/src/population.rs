//! The consumers: they sell labour, buy food and clothes, and are born and
//! die by their health.

use vstd::prelude::*;
use crate::bns::{buy_commodities, publish_for_sale, Purchase};
use crate::good::Good;
use crate::industry::{
    bought, lemma_can_sell, lemma_stock_non_negative, sold_from, traded, Factory, Industry,
};
use crate::market::MarketNetwork;
use crate::chance::{choose_mut, random_index, shuffle};
use crate::misc::Inheritance;
use crate::scan::{
    filled, lemma_circle, lemma_scanned_all, lemma_scanned_grows, min, scanned, share, turn,
    visited,
};
use crate::tally::{
    amount_of, lemma_same_items, lemma_tally_bounds, lemma_tally_constant,
    lemma_tally_permutation, lemma_tally_push, lemma_tally_swap_remove, lemma_tally_take,
    lemma_tally_take_le, lemma_tally_update, non_negative, sum, tally,
};

verus! {

/// Hundredths of its money that a consumer sets aside for food each day.
pub const FOOD_BUDGET_PERCENT: i32 = 40;

/// Hundredths of its money that a consumer sets aside for clothes each day.
pub const CLOTHES_BUDGET_PERCENT: i32 = 20;

/// Units of labour that a consumer offers each day.
pub const LABOUR_OUTPUT: i32 = 10;

/// Units of food that a consumer needs a day to stay well.
pub const MIN_FOOD: i32 = 2;

/// Units of clothes that a consumer needs a day to stay well.
pub const MIN_CLOTHES: i32 = 1;

/// The health from which on a consumer has a child.
pub const REPRODUCTION_HEALTH: i32 = 10;

/// The health with which a consumer is born.
pub const CHILD_HEALTH: i32 = 3;

/// A consumer.
#[derive(Debug, Clone, Copy, PartialEq, Eq, Structural)]
pub struct Pop {
    pub money: i32,
    /// Units of labour on offer today.
    pub labour: i32,
    pub health: i32,
}

/// The money of a consumer.
pub open spec fn money_of() -> spec_fn(Pop) -> int {
    |pop: Pop| pop.money as int
}

/// The labour that a consumer has on offer.
pub open spec fn labour_of() -> spec_fn(Pop) -> int {
    |pop: Pop| pop.labour as int
}

/// What a consumer orders at `price` each with `percent` hundredths of its
/// money.
pub open spec fn order_of(percent: int, price: int) -> spec_fn(Pop) -> int {
    |pop: Pop| pop.order(percent, price)
}

/// What the consumer at position `i` gets when the consumers order one
/// after another, from the first on, a good of which there are `stock`
/// units: its order, or what the consumers before it have left, if that is
/// less.
pub open spec fn ration(pops: Seq<Pop>, percent: int, price: int, stock: int, i: int) -> Purchase {
    Purchase {
        amount: share(pops, order_of(percent, price), 0, stock, i) as i32,
        cost: (share(pops, order_of(percent, price), 0, stock, i) * price) as i32,
    }
}

/// The consumers at the end of a day on which they ordered one after
/// another, from the first on, at the prices `food_price` and
/// `clothes_price`, from factories that had `food_stock` units of food and
/// `clothes_stock` units of clothes.
pub open spec fn served(
    pops: Seq<Pop>,
    food_price: int,
    clothes_price: int,
    food_stock: int,
    clothes_stock: int,
) -> Seq<Pop> {
    Seq::new(
        pops.len(),
        |i: int|
            pops[i].settled(
                ration(pops, FOOD_BUDGET_PERCENT as int, food_price, food_stock, i),
                ration(pops, CLOTHES_BUDGET_PERCENT as int, clothes_price, clothes_stock, i),
            ),
    )
}

/// The factories after the first `k` consumers of `pops` have each ordered
/// food and then clothes from them, at the prices `food_price` and
/// `clothes_price`.
///
/// Each order is filled by a circle of its own. `starts` names where the
/// circles start, two for each consumer: a number stands for the position
/// that it leaves on division by the number of factories.
pub open spec fn supplied(
    factories: Seq<Factory>,
    pops: Seq<Pop>,
    food_price: int,
    clothes_price: int,
    starts: Seq<int>,
    k: int,
) -> Seq<Factory>
    decreases k,
{
    if k <= 0 {
        factories
    } else {
        let earlier = supplied(factories, pops, food_price, clothes_price, starts, k - 1);
        let count = factories.len() as int;
        let fed = sold_from(
            earlier,
            starts[2 * (k - 1)] % count,
            Good::Food,
            pops[k - 1].order(FOOD_BUDGET_PERCENT as int, food_price),
            food_price,
        );
        sold_from(
            fed,
            starts[2 * (k - 1) + 1] % count,
            Good::Clothes,
            pops[k - 1].order(CLOTHES_BUDGET_PERCENT as int, clothes_price),
            clothes_price,
        )
    }
}

/// What the first `k` consumers make of the factories depends on the starts
/// of their own circles only.
pub proof fn lemma_supplied_starts(
    factories: Seq<Factory>,
    pops: Seq<Pop>,
    food_price: int,
    clothes_price: int,
    a: Seq<int>,
    b: Seq<int>,
    k: int,
)
    requires
        0 <= 2 * k <= a.len(),
        2 * k <= b.len(),
        forall|j: int| 0 <= j < 2 * k ==> a[j] == b[j],
    ensures
        supplied(factories, pops, food_price, clothes_price, a, k) == supplied(
            factories,
            pops,
            food_price,
            clothes_price,
            b,
            k,
        ),
        supplied(factories, pops, food_price, clothes_price, a, k).len() == factories.len(),
    decreases k,
{
    if k > 0 {
        lemma_supplied_starts(factories, pops, food_price, clothes_price, a, b, k - 1);
        assert(a[2 * (k - 1)] == b[2 * (k - 1)]);
        assert(a[2 * (k - 1) + 1] == b[2 * (k - 1) + 1]);
    }
}

/// The consumers of `pops` that are alive, in their order.
pub open spec fn living(pops: Seq<Pop>) -> Seq<Pop>
    decreases pops.len(),
{
    if pops.len() == 0 {
        pops
    } else if pops.last().health > 0 {
        living(pops.drop_last()).push(pops.last())
    } else {
        living(pops.drop_last())
    }
}

/// What the dead among `pops` leave behind, in their order.
pub open spec fn estates(pops: Seq<Pop>) -> Seq<i32>
    decreases pops.len(),
{
    if pops.len() == 0 {
        Seq::empty()
    } else if pops.last().health > 0 {
        estates(pops.drop_last())
    } else {
        estates(pops.drop_last()).push(pops.last().money)
    }
}

/// The consumers after each of `bequests` has gone, whole, to one of them.
/// `heirs` names the heir of each bequest: a number stands for the position
/// that it leaves on division by the number of consumers. Where there is no
/// consumer, the bequests are lost.
pub open spec fn endowed(pops: Seq<Pop>, bequests: Seq<i32>, heirs: Seq<int>) -> Seq<Pop>
    decreases bequests.len(),
{
    if bequests.len() == 0 || pops.len() == 0 {
        pops
    } else {
        let earlier = endowed(pops, bequests.drop_last(), heirs);
        let heir = heirs[bequests.len() - 1] % (pops.len() as int);
        earlier.update(heir, earlier[heir].credited(bequests.last() as int))
    }
}

/// The consumers of `pops`, each after it has had a child if it has the
/// health for it.
pub open spec fn grown(pops: Seq<Pop>) -> Seq<Pop> {
    Seq::new(
        pops.len(),
        |i: int|
            if pops[i].health >= REPRODUCTION_HEALTH {
                pops[i].parent()
            } else {
                pops[i]
            },
    )
}

/// The children of those of `pops` that have the health for one, in the order
/// of their parents.
pub open spec fn children(pops: Seq<Pop>) -> Seq<Pop>
    decreases pops.len(),
{
    if pops.len() == 0 {
        pops
    } else if pops.last().health >= REPRODUCTION_HEALTH {
        children(pops.drop_last()).push(pops.last().child())
    } else {
        children(pops.drop_last())
    }
}

/// The consumers after the pass that ends their day.
///
/// Every consumer is looked at once. Those without health are gone. What
/// each of them owned has gone to one of those that are alive, as `heirs`
/// names them (see [`endowed`]). After that, each of the living that has the
/// health for it has had a child: the living keep their order, and the
/// children stand behind them.
pub open spec fn turned(pops: Seq<Pop>, heirs: Seq<int>) -> Seq<Pop> {
    let alive = endowed(living(pops), estates(pops), heirs);
    grown(alive) + children(alive)
}

/// Who inherits which of the bequests depends on the heirs of these bequests
/// only.
pub proof fn lemma_endowed_heirs(pops: Seq<Pop>, bequests: Seq<i32>, a: Seq<int>, b: Seq<int>)
    requires
        bequests.len() <= a.len(),
        bequests.len() <= b.len(),
        forall|j: int| 0 <= j < bequests.len() ==> a[j] == b[j],
    ensures
        endowed(pops, bequests, a) == endowed(pops, bequests, b),
        endowed(pops, bequests, a).len() == pops.len(),
    decreases bequests.len(),
{
    if bequests.len() > 0 && pops.len() > 0 {
        lemma_endowed_heirs(pops, bequests.drop_last(), a, b);
        assert(a[bequests.len() - 1] == b[bequests.len() - 1]);
    }
}

impl Pop {
    /// A consumer can go through a day: it is well-formed, and its health
    /// can move a point either way.
    pub open spec fn fit(self) -> bool {
        &&& self.wf()
        &&& i32::MIN < self.health < i32::MAX
    }

    /// A consumer owes nothing and offers no less than nothing.
    pub open spec fn wf(self) -> bool {
        self.money >= 0 && self.labour >= 0
    }

    /// Half of `health`, rounded towards zero.
    pub open spec fn half(health: int) -> int {
        if health >= 0 {
            health / 2
        } else {
            -((-health) / 2)
        }
    }

    /// The consumer after it has had a child: the child got all its money,
    /// and bearing it took half its health.
    pub open spec fn parent(self) -> Pop {
        Pop { money: 0, labour: self.labour, health: Pop::half(self.health as int) as i32 }
    }

    /// The child of the consumer: it has the money that the consumer had.
    pub open spec fn child(self) -> Pop {
        Pop { money: self.money, labour: 0, health: CHILD_HEALTH }
    }

    /// The consumer with `amount` more money.
    pub open spec fn credited(self, amount: int) -> Pop {
        Pop { money: (self.money + amount) as i32, labour: self.labour, health: self.health }
    }

    /// How many units the consumer orders at `price` each with `percent`
    /// hundredths of its money. What the division leaves over is not spent.
    pub open spec fn order(self, percent: int, price: int) -> int {
        (self.money * percent / 100) / price
    }

    /// The consumer at the end of a day on which it bought `food` and
    /// `clothes`: it has paid for both, offers a day's labour, and is better
    /// or worse for what it got.
    pub open spec fn settled(self, food: Purchase, clothes: Purchase) -> Pop {
        Pop {
            money: (self.money - (food.cost + clothes.cost)) as i32,
            labour: LABOUR_OUTPUT,
            health: if food.amount >= MIN_FOOD && clothes.amount >= MIN_CLOTHES {
                (self.health + 1) as i32
            } else {
                (self.health - 1) as i32
            },
        }
    }

    /// Ends the day on which the consumer bought `food` and `clothes`.
    pub fn settle(&mut self, food: Purchase, clothes: Purchase)
        requires
            i32::MIN <= food.cost + clothes.cost <= i32::MAX,
            i32::MIN <= old(self).money - (food.cost + clothes.cost) <= i32::MAX,
            i32::MIN < old(self).health < i32::MAX,
        ensures
            *final(self) == old(self).settled(food, clothes),
    {
        self.money = self.money - (food.cost + clothes.cost);
        self.labour = LABOUR_OUTPUT;
        if food.amount >= MIN_FOOD && clothes.amount >= MIN_CLOTHES {
            self.health = self.health + 1;
        } else {
            self.health = self.health - 1;
        }
    }

    /// A day in the life of a consumer: it orders food with 40 hundredths of
    /// its money and clothes with 20, pays for what it gets, and offers its
    /// labour. It gains a point of health if it got enough of both, and
    /// loses one if not.
    ///
    /// There must be a factory to order from, prices of at least 1, and room
    /// in 32 bits: for the consumer's money on top of the factories', and on
    /// the markets for what is ordered and offered.
    pub fn tick(&mut self, industry: &mut Industry, market: &mut MarketNetwork)
        requires
            old(self).fit(),
            old(market).is_open(),
            old(industry)@.len() > 0,
            old(industry).wf(),
            old(industry).total_money() + old(self).money <= i32::MAX,
            old(market).at(Good::Food).demand + old(self).order(
                FOOD_BUDGET_PERCENT as int,
                old(market).at(Good::Food).price as int,
            ) <= i32::MAX,
            old(market).at(Good::Clothes).demand + old(self).order(
                CLOTHES_BUDGET_PERCENT as int,
                old(market).at(Good::Clothes).price as int,
            ) <= i32::MAX,
            old(market).at(Good::Labour).supply + LABOUR_OUTPUT <= i32::MAX,
        ensures
            ({
                let food_price = old(market).at(Good::Food).price as int;
                let clothes_price = old(market).at(Good::Clothes).price as int;
                let food_order = old(self).order(FOOD_BUDGET_PERCENT as int, food_price);
                let clothes_order = old(self).order(CLOTHES_BUDGET_PERCENT as int, clothes_price);
                let food = bought(old(industry)@, Good::Food, food_order, food_price);
                let clothes = bought(old(industry)@, Good::Clothes, clothes_order, clothes_price);
                &&& *final(self) == old(self).settled(food, clothes)
                &&& final(self).wf()
                &&& final(self).money <= old(self).money
                &&& final(market).at(Good::Food) == old(market).at(Good::Food).asked(food_order)
                &&& final(market).at(Good::Clothes) == old(market).at(Good::Clothes).asked(
                    clothes_order,
                )
                &&& final(market).at(Good::Labour) == old(market).at(Good::Labour).offered(
                    LABOUR_OUTPUT as int,
                )
                &&& exists|first: int, second: int|
                    0 <= first < old(industry)@.len() && 0 <= second < old(industry)@.len()
                        && final(industry)@ == #[trigger] sold_from(
                        sold_from(old(industry)@, first, Good::Food, food_order, food_price),
                        second,
                        Good::Clothes,
                        clothes_order,
                        clothes_price,
                    )
                &&& final(industry)@.len() == old(industry)@.len()
                &&& final(industry).wf()
                &&& final(industry).total_money() + final(self).money
                    == old(industry).total_money() + old(self).money
                &&& final(industry).stock(Good::Food) == old(industry).stock(Good::Food)
                    - food.amount
                &&& final(industry).stock(Good::Clothes) == old(industry).stock(Good::Clothes)
                    - clothes.amount
                &&& final(industry).stock(Good::Labour) == old(industry).stock(Good::Labour)
                &&& traded(old(industry)@, final(industry)@)
            }),
    {
        let ghost food_price = market.at(Good::Food).price as int;
        let ghost clothes_price = market.at(Good::Clothes).price as int;
        assert(market.at(Good::Food).is_open());
        assert(market.at(Good::Clothes).is_open());
        let budget_food = (self.money as i64 * FOOD_BUDGET_PERCENT as i64 / 100) as i32;
        let budget_clothes = (self.money as i64 * CLOTHES_BUDGET_PERCENT as i64 / 100) as i32;
        let food_to_buy = budget_food / market.price(Good::Food);
        let clothes_to_buy = budget_clothes / market.price(Good::Clothes);
        proof {
            assert(0 <= food_to_buy * food_price <= budget_food) by (nonlinear_arith)
                requires
                    food_to_buy == budget_food as int / food_price,
                    0 <= budget_food,
                    1 <= food_price,
            ;
            assert(0 <= clothes_to_buy * clothes_price <= budget_clothes) by (nonlinear_arith)
                requires
                    clothes_to_buy == budget_clothes as int / clothes_price,
                    0 <= budget_clothes,
                    1 <= clothes_price,
            ;
            assert(0 <= food_to_buy) by (nonlinear_arith)
                requires
                    food_to_buy == budget_food as int / food_price,
                    0 <= budget_food,
                    1 <= food_price,
            ;
            assert(0 <= clothes_to_buy) by (nonlinear_arith)
                requires
                    clothes_to_buy == budget_clothes as int / clothes_price,
                    0 <= budget_clothes,
                    1 <= clothes_price,
            ;
            lemma_can_sell(industry, Good::Food, food_to_buy as int, food_price, budget_food as int);
        }
        let food_purchase = buy_commodities(industry, market, Good::Food, food_to_buy);
        proof {
            lemma_can_sell(
                industry,
                Good::Clothes,
                clothes_to_buy as int,
                clothes_price,
                budget_clothes as int,
            );
            assert(industry.stock(Good::Clothes) == old(industry).stock(Good::Clothes));
            assert(industry.stock(Good::Labour) == old(industry).stock(Good::Labour));
        }
        let ghost food_left = industry.stock(Good::Food);
        let ghost labour_left = industry.stock(Good::Labour);
        let clothes_purchase = buy_commodities(industry, market, Good::Clothes, clothes_to_buy);
        proof {
            assert(industry.stock(Good::Food) == food_left);
            assert(industry.stock(Good::Labour) == labour_left);
        }
        self.settle(food_purchase, clothes_purchase);
        publish_for_sale(market, Good::Labour, self.labour);
    }

    /// Takes an inheritance.
    pub fn inherit(&mut self, inheritance: Inheritance)
        requires
            i32::MIN <= old(self).money + inheritance.0 <= i32::MAX,
        ensures
            *final(self) == old(self).credited(inheritance.0 as int),
    {
        self.money = self.money + inheritance.0;
    }

    /// The consumer after selling `amount` units of labour at `price` each.
    pub open spec fn paid(self, amount: int, price: int) -> Pop {
        Pop {
            money: (self.money + amount * price) as i32,
            labour: (self.labour - amount) as i32,
            health: self.health,
        }
    }
}

/// The consumers after an order for `target` units of labour at `price`
/// each, filled by a circle that starts at `offset`.
pub open spec fn hired_from(pops: Seq<Pop>, offset: int, target: int, price: int) -> Seq<Pop> {
    Seq::new(
        pops.len(),
        |i: int| pops[i].paid(share(pops, labour_of(), offset, target, i), price),
    )
}

/// All the consumers.
pub struct Population {
    pops: Vec<Pop>,
}

impl View for Population {
    type V = Seq<Pop>;

    /// The consumers, in their order.
    closed spec fn view(&self) -> Seq<Pop> {
        self.pops@
    }
}

/// What a day of the consumers makes of the consumers `before`, the
/// factories `factories` and the markets `markets`.
///
/// The consumers trade in some order of their own, and the pass that ends
/// their day goes over them in that order: afterwards none is without
/// health. On the markets the orders for
/// food and clothes are counted as demand, and ten units of labour for each
/// consumer as supply. The factories sell: what they sell in all and what
/// they get for it does not depend on the order. No money comes into being,
/// and none is lost unless the last consumer dies.
pub open spec fn consumers_day(
    before: Population,
    factories: Industry,
    markets: MarketNetwork,
    after: Population,
    sold: Industry,
    counted: MarketNetwork,
) -> bool {
    let food_price = markets.at(Good::Food).price as int;
    let clothes_price = markets.at(Good::Clothes).price as int;
    let food_orders = before.orders(FOOD_BUDGET_PERCENT as int, food_price);
    let clothes_orders = before.orders(CLOTHES_BUDGET_PERCENT as int, clothes_price);
    let food_stock = factories.stock(Good::Food);
    let clothes_stock = factories.stock(Good::Clothes);
    &&& exists|order: Seq<Pop>, heirs: Seq<int>, starts: Seq<int>|
        #![trigger
            turned(served(order, food_price, clothes_price, food_stock, clothes_stock), heirs),
            supplied(
                factories@,
                order,
                food_price,
                clothes_price,
                starts,
                before@.len() as int,
            )]
        {
            &&& order.to_multiset() == before@.to_multiset()
            &&& after@ == turned(
                served(order, food_price, clothes_price, food_stock, clothes_stock),
                heirs,
            )
            &&& sold@ == supplied(
                factories@,
                order,
                food_price,
                clothes_price,
                starts,
                before@.len() as int,
            )
        }
    &&& after.fit()
    &&& forall|i: int| 0 <= i < after@.len() ==> (#[trigger] after@[i]).health > 0
    &&& (forall|i: int|
        0 <= i < before@.len() ==> (#[trigger] before@[i]).health < 2 * REPRODUCTION_HEALTH - 1)
        ==> forall|i: int|
        0 <= i < after@.len() ==> (#[trigger] after@[i]).health < REPRODUCTION_HEALTH
    &&& after@.len() <= 2 * before@.len()
    &&& counted.is_open()
    &&& counted.at(Good::Food) == markets.at(Good::Food).asked(food_orders)
    &&& counted.at(Good::Clothes) == markets.at(Good::Clothes).asked(
        clothes_orders,
    )
    &&& counted.at(Good::Labour) == markets.at(Good::Labour).offered(
        LABOUR_OUTPUT * before@.len(),
    )
    &&& sold@.len() == factories@.len()
    &&& sold.wf()
    &&& sold.stock(Good::Food) == food_stock - min(food_stock, food_orders)
    &&& sold.stock(Good::Clothes) == clothes_stock - min(
        clothes_stock,
        clothes_orders,
    )
    &&& sold.stock(Good::Labour) == factories.stock(Good::Labour)
    &&& sold.total_money() == factories.total_money() + min(
        food_stock,
        food_orders,
    ) * food_price + min(clothes_stock, clothes_orders) * clothes_price
    &&& after@.len() > 0 ==> after.total_money()
        + sold.total_money() == before.total_money()
        + factories.total_money()
    &&& after.total_money() + sold.total_money()
        <= before.total_money() + factories.total_money()
    &&& traded(factories@, sold@)
    &&& 0 <= after.total_labour() <= LABOUR_OUTPUT * before@.len()
}

impl Population {
    /// Every consumer is well-formed.
    pub open spec fn wf(&self) -> bool {
        forall|i: int| 0 <= i < self@.len() ==> (#[trigger] self@[i]).wf()
    }

    /// The money of all consumers together.
    pub open spec fn total_money(&self) -> int {
        tally(self@, money_of())
    }

    /// The labour that all consumers together have on offer.
    pub open spec fn total_labour(&self) -> int {
        tally(self@, labour_of())
    }

    /// An order for `target` units of labour at `price` each can be settled
    /// in 32 bits, wherever the circle starts.
    pub open spec fn can_hire(&self, target: int, price: int) -> bool {
        &&& 0 <= target
        &&& 0 <= price
        &&& self.wf()
        &&& filled(self@, labour_of(), target) * price <= i32::MAX
        &&& forall|i: int|
            0 <= i < self@.len() ==> (#[trigger] self@[i]).money + min(
                self@[i].labour as int,
                target,
            ) * price <= i32::MAX
    }

    /// Every consumer can go through a day.
    pub open spec fn fit(&self) -> bool {
        forall|i: int| 0 <= i < self@.len() ==> (#[trigger] self@[i]).fit()
    }

    /// What all consumers together order at `price` each, each with
    /// `percent` hundredths of its money.
    pub open spec fn orders(&self, percent: int, price: int) -> int {
        tally(self@, order_of(percent, price))
    }

    /// `n` consumers, each a copy of `pop`.
    pub fn new(n: usize, pop: Pop) -> (population: Self)
        ensures
            population@.len() == n,
            forall|i: int| 0 <= i < n ==> population@[i] == pop,
    {
        let mut pops: Vec<Pop> = Vec::new();
        let mut i: usize = 0;
        while i < n
            invariant
                i <= n,
                pops@.len() == i,
                forall|j: int| 0 <= j < i ==> pops@[j] == pop,
            decreases n - i,
        {
            pops.push(pop);
            i += 1;
        }
        Population { pops }
    }

    /// The consumers of `pops`, in their order.
    pub fn from_pops(pops: Vec<Pop>) -> (population: Self)
        ensures
            population@ == pops@,
    {
        Population { pops }
    }

    /// The consumer at position `idx`.
    pub fn pop(&self, idx: usize) -> (pop: Pop)
        requires
            idx < self@.len(),
        ensures
            pop == self@[idx as int],
    {
        self.pops[idx]
    }

    /// Removes the consumer at position `idx`; the last consumer takes its
    /// place. What it owned is handed out.
    pub fn kill(&mut self, idx: usize) -> (inheritance: Inheritance)
        requires
            idx < old(self)@.len(),
        ensures
            inheritance.0 == old(self)@[idx as int].money,
            final(self)@ == old(self)@.update(idx as int, old(self)@.last()).drop_last(),
            final(self).total_money() + inheritance.0 == old(self).total_money(),
    {
        proof {
            lemma_tally_swap_remove(self.pops@, money_of(), idx as int);
        }
        Inheritance(self.pops.swap_remove(idx).money)
    }

    /// The consumer at position `idx` has a child, which is added at the end.
    pub fn reproduce(&mut self, idx: usize)
        requires
            idx < old(self)@.len(),
        ensures
            final(self)@ == old(self)@.update(idx as int, old(self)@[idx as int].parent()).push(
                old(self)@[idx as int].child(),
            ),
            final(self).total_money() == old(self).total_money(),
            final(self).total_labour() == old(self).total_labour(),
    {
        proof {
            let parent = self.pops@[idx as int].parent();
            lemma_tally_update(self.pops@, labour_of(), idx as int, parent);
            lemma_tally_push(
                self.pops@.update(idx as int, parent),
                labour_of(),
                self.pops@[idx as int].child(),
            );
            lemma_tally_update(self.pops@, money_of(), idx as int, parent);
            lemma_tally_push(
                self.pops@.update(idx as int, parent),
                money_of(),
                self.pops@[idx as int].child(),
            );
        }
        let mut pop = self.pops[idx];
        let birth_money = pop.money;
        pop.money = pop.money - birth_money;
        pop.health = pop.health / 2;
        self.pops.set(idx, pop);
        self.pops.push(Pop { money: birth_money, health: CHILD_HEALTH, labour: 0 });
    }

    /// How many consumers there are.
    pub fn count(&self) -> (n: usize)
        ensures
            n == self@.len(),
    {
        self.pops.len()
    }

    /// Fills an order for `target_amount` units of labour at `market_price`
    /// each, by a circle that starts at `offset`.
    pub fn buy_labour_from(&mut self, offset: usize, target_amount: i32, market_price: i32)
        -> (purchase: Purchase)
        requires
            offset < old(self)@.len(),
            old(self).can_hire(target_amount as int, market_price as int),
        ensures
            final(self)@ == hired_from(
                old(self)@,
                offset as int,
                target_amount as int,
                market_price as int,
            ),
            purchase.amount == filled(old(self)@, labour_of(), target_amount as int),
            purchase.cost == purchase.amount * market_price,
            final(self)@.len() == old(self)@.len(),
            final(self).wf(),
            final(self).total_money() == old(self).total_money() + purchase.cost,
            final(self).total_labour() == old(self).total_labour() - purchase.amount,
            forall|i: int|
                0 <= i < old(self)@.len() ==> (#[trigger] final(self)@[i]).health
                    == old(self)@[i].health,
    {
        let n = self.pops.len();
        let ghost before = self.pops@;
        let ghost target = target_amount as int;
        let ghost price = market_price as int;
        let ghost at = offset as int;
        let mut bought: i32 = 0;
        let mut step: usize = 0;
        proof {
            assert(non_negative(before, labour_of())) by {
                assert forall|i: int| 0 <= i < before.len() implies labour_of()(
                    #[trigger] before[i],
                ) >= 0 by {
                    assert(before[i].wf());
                }
            }
            assert(0 * price == 0);
        }
        while step < n && bought < target_amount
            invariant
                n == before.len(),
                self.pops@.len() == n,
                at == offset,
                target == target_amount,
                price == market_price,
                offset < n,
                step <= n,
                0 <= target,
                0 <= price,
                non_negative(before, labour_of()),
                forall|i: int| 0 <= i < n ==> (#[trigger] before[i]).wf(),
                forall|i: int|
                    0 <= i < n ==> (#[trigger] before[i]).money + min(
                        before[i].labour as int,
                        target,
                    ) * price <= i32::MAX,
                bought == min(target, scanned(before, labour_of(), at, step as int)),
                forall|i: int|
                    0 <= i < n ==> #[trigger] self.pops@[i] == if turn(n as int, at, i) < step {
                        before[i].paid(share(before, labour_of(), at, target, i), price)
                    } else {
                        before[i]
                    },
                forall|i: int| 0 <= i < n ==> (#[trigger] self.pops@[i]).wf(),
                tally(self.pops@, money_of()) == tally(before, money_of()) + bought * price,
                tally(self.pops@, labour_of()) == tally(before, labour_of()) - bought,
            decreases n - step,
        {
            let idx = if step < n - offset {
                offset + step
            } else {
                step - (n - offset)
            };
            proof {
                lemma_circle(n as int, at);
                assert(idx == visited(n as int, at, step as int));
                assert(turn(n as int, at, idx as int) == step);
                lemma_scanned_grows(before, labour_of(), at, 0, step as int);
                assert(self.pops@[idx as int] == before[idx as int]);
                assert(before[idx as int].wf());
            }
            let mut pop = self.pops[idx];
            let left = target_amount - bought;
            let amount = if pop.labour < left {
                pop.labour
            } else {
                left
            };
            proof {
                assert(amount == share(before, labour_of(), at, target, idx as int));
                assert(0 <= amount <= min(pop.labour as int, target));
                assert(0 <= amount * price <= min(pop.labour as int, target) * price)
                    by (nonlinear_arith)
                    requires
                        0 <= amount <= min(pop.labour as int, target),
                        0 <= price,
                ;
                assert((bought + amount) * price == bought * price + amount * price)
                    by (nonlinear_arith);
            }
            let ghost prior = self.pops@;
            pop.money = pop.money + amount * market_price;
            pop.labour = pop.labour - amount;
            self.pops.set(idx, pop);
            bought = bought + amount;
            step += 1;
            proof {
                lemma_tally_update(prior, money_of(), idx as int, pop);
                lemma_tally_update(prior, labour_of(), idx as int, pop);
                assert(pop == before[idx as int].paid(amount as int, price));
                assert forall|i: int| 0 <= i < n implies #[trigger] self.pops@[i] == if turn(
                    n as int,
                    at,
                    i,
                ) < step {
                    before[i].paid(share(before, labour_of(), at, target, i), price)
                } else {
                    before[i]
                } by {
                    if i != idx {
                        assert(self.pops@[i] == prior[i]);
                        assert(turn(n as int, at, i) != step - 1);
                    }
                }
            }
        }
        proof {
            lemma_circle(n as int, at);
            lemma_scanned_all(before, labour_of(), at);
            lemma_scanned_grows(before, labour_of(), at, step as int, n as int);
            assert forall|i: int| 0 <= i < n implies #[trigger] self.pops@[i] == before[i].paid(
                share(before, labour_of(), at, target, i),
                price,
            ) by {
                let t = turn(n as int, at, i);
                if t >= step {
                    lemma_scanned_grows(before, labour_of(), at, step as int, t);
                    assert(share(before, labour_of(), at, target, i) == 0);
                    assert(before[i].paid(0, price) == before[i]);
                }
            }
            assert(self.pops@ =~= hired_from(before, at, target, price));
        }
        Purchase { amount: bought, cost: bought * market_price }
    }

    /// Fills an order for `target_amount` units of labour at `market_price`
    /// each, by a circle that starts at a position drawn by chance. What the
    /// order gets does not depend on the draw; which consumers sell does.
    pub fn buy_labour(&mut self, target_amount: i32, market_price: i32) -> (purchase: Purchase)
        requires
            old(self)@.len() > 0,
            old(self).can_hire(target_amount as int, market_price as int),
        ensures
            exists|offset: int|
                0 <= offset < old(self)@.len() && final(self)@ == #[trigger] hired_from(
                    old(self)@,
                    offset,
                    target_amount as int,
                    market_price as int,
                ),
            purchase.amount == filled(old(self)@, labour_of(), target_amount as int),
            purchase.cost == purchase.amount * market_price,
            final(self)@.len() == old(self)@.len(),
            final(self).wf(),
            final(self).total_money() == old(self).total_money() + purchase.cost,
            final(self).total_labour() == old(self).total_labour() - purchase.amount,
            forall|i: int|
                0 <= i < old(self)@.len() ==> (#[trigger] final(self)@[i]).health
                    == old(self)@[i].health,
    {
        let offset = random_index(self.pops.len());
        self.buy_labour_from(offset, target_amount, market_price)
    }

    /// A day of all consumers: they are put into an order drawn by chance,
    /// trade in that order (see [`Population::trade`]), and are then taken
    /// through the pass that ends the day (see [`Population::turnover`]).
    /// What comes of it is [`consumers_day`].
    ///
    /// Where there are consumers there must be a factory, prices must be at
    /// least 1, and there must be room in 32 bits: for all the money of
    /// consumers and factories together, and on the markets for what is
    /// ordered and offered.
    pub fn tick(&mut self, industry: &mut Industry, market: &mut MarketNetwork)
        requires
            old(self).fit(),
            old(industry).wf(),
            old(market).is_open(),
            old(self)@.len() > 0 ==> old(industry)@.len() > 0,
            old(self).total_money() + old(industry).total_money() <= i32::MAX,
            old(market).at(Good::Food).demand + old(self).orders(
                FOOD_BUDGET_PERCENT as int,
                old(market).at(Good::Food).price as int,
            ) <= i32::MAX,
            old(market).at(Good::Clothes).demand + old(self).orders(
                CLOTHES_BUDGET_PERCENT as int,
                old(market).at(Good::Clothes).price as int,
            ) <= i32::MAX,
            old(market).at(Good::Labour).supply + LABOUR_OUTPUT * old(self)@.len() <= i32::MAX,
        ensures
            consumers_day(
                *old(self),
                *old(industry),
                *old(market),
                *final(self),
                *final(industry),
                *final(market),
            ),
    {
        let ghost before = self.pops@;
        let ghost food_price = market.at(Good::Food).price as int;
        let ghost clothes_price = market.at(Good::Clothes).price as int;
        shuffle(&mut self.pops);
        let ghost order = self.pops@;
        proof {
            assert(market.at(Good::Food).is_open());
            assert(market.at(Good::Clothes).is_open());
            lemma_tally_permutation(order, before, money_of());
            lemma_tally_permutation(order, before, order_of(FOOD_BUDGET_PERCENT as int, food_price));
            lemma_tally_permutation(
                order,
                before,
                order_of(CLOTHES_BUDGET_PERCENT as int, clothes_price),
            );
            assert forall|i: int| 0 <= i < before.len() implies (#[trigger] before[i]).fit() by {
                assert(old(self)@[i].fit());
            }
            lemma_same_items(before, order, |pop: Pop| pop.fit());
            lemma_stock_non_negative(industry, Good::Food);
        }
        self.trade(industry, market);
        let ghost traded = self.pops@;
        let ghost starts = choose|starts: Seq<int>|
            industry@ == #[trigger] supplied(
                old(industry)@,
                order,
                food_price,
                clothes_price,
                starts,
                order.len() as int,
            );
        proof {
            lemma_stock_non_negative(industry, Good::Food);
        }
        self.turnover();
        proof {
            let heirs = choose|heirs: Seq<int>| self@ == #[trigger] turned(traded, heirs);
            assert(self@ == turned(
                served(
                    order,
                    food_price,
                    clothes_price,
                    old(industry).stock(Good::Food),
                    old(industry).stock(Good::Clothes),
                ),
                heirs,
            ));
            if forall|i: int|
                0 <= i < before.len() ==> (#[trigger] before[i]).health < 2 * REPRODUCTION_HEALTH
                    - 1 {
                lemma_same_items(
                    before,
                    order,
                    |pop: Pop| pop.health < 2 * REPRODUCTION_HEALTH - 1,
                );
                assert forall|i: int| 0 <= i < traded.len() implies (#[trigger] traded[i]).health
                    < 2 * REPRODUCTION_HEALTH by {
                    assert(order[i].health < 2 * REPRODUCTION_HEALTH - 1);
                }
            }
            assert(industry@ == supplied(
                old(industry)@,
                order,
                food_price,
                clothes_price,
                starts,
                old(self)@.len() as int,
            ));
        }
    }

    /// The day's trading of all consumers, one after another from the first
    /// on: see [`Pop::tick`]. Who comes first gets first.
    pub fn trade(&mut self, industry: &mut Industry, market: &mut MarketNetwork)
        requires
            old(self).fit(),
            old(industry).wf(),
            old(market).is_open(),
            old(self)@.len() > 0 ==> old(industry)@.len() > 0,
            old(self).total_money() + old(industry).total_money() <= i32::MAX,
            old(market).at(Good::Food).demand + old(self).orders(
                FOOD_BUDGET_PERCENT as int,
                old(market).at(Good::Food).price as int,
            ) <= i32::MAX,
            old(market).at(Good::Clothes).demand + old(self).orders(
                CLOTHES_BUDGET_PERCENT as int,
                old(market).at(Good::Clothes).price as int,
            ) <= i32::MAX,
            old(market).at(Good::Labour).supply + LABOUR_OUTPUT * old(self)@.len() <= i32::MAX,
        ensures
            ({
                let food_price = old(market).at(Good::Food).price as int;
                let clothes_price = old(market).at(Good::Clothes).price as int;
                let food_orders = old(self).orders(FOOD_BUDGET_PERCENT as int, food_price);
                let clothes_orders = old(self).orders(CLOTHES_BUDGET_PERCENT as int, clothes_price);
                let food_stock = old(industry).stock(Good::Food);
                let clothes_stock = old(industry).stock(Good::Clothes);
                &&& final(self)@ == served(
                    old(self)@,
                    food_price,
                    clothes_price,
                    food_stock,
                    clothes_stock,
                )
                &&& final(self).wf()
                &&& final(market).is_open()
                &&& final(market).at(Good::Food) == old(market).at(Good::Food).asked(food_orders)
                &&& final(market).at(Good::Clothes) == old(market).at(Good::Clothes).asked(
                    clothes_orders,
                )
                &&& final(market).at(Good::Labour) == old(market).at(Good::Labour).offered(
                    LABOUR_OUTPUT * old(self)@.len(),
                )
                &&& final(industry)@.len() == old(industry)@.len()
                &&& final(industry).wf()
                &&& final(industry).stock(Good::Food) == food_stock - min(food_stock, food_orders)
                &&& final(industry).stock(Good::Clothes) == clothes_stock - min(
                    clothes_stock,
                    clothes_orders,
                )
                &&& final(industry).stock(Good::Labour) == old(industry).stock(Good::Labour)
                &&& final(industry).total_money() == old(industry).total_money() + min(
                    food_stock,
                    food_orders,
                ) * food_price + min(clothes_stock, clothes_orders) * clothes_price
                &&& final(self).total_money() + final(industry).total_money()
                    == old(self).total_money() + old(industry).total_money()
                &&& traded(old(industry)@, final(industry)@)
                &&& final(self).total_labour() == LABOUR_OUTPUT * old(self)@.len()
                &&& exists|starts: Seq<int>|
                    final(industry)@ == #[trigger] supplied(
                        old(industry)@,
                        old(self)@,
                        food_price,
                        clothes_price,
                        starts,
                        old(self)@.len() as int,
                    )
            }),
    {
        let n = self.pops.len();
        let ghost start = self.pops@;
        let ghost shelves = industry@;
        let ghost mut starts: Seq<int> = Seq::empty();
        let ghost food_price = market.at(Good::Food).price as int;
        let ghost clothes_price = market.at(Good::Clothes).price as int;
        let ghost food_stock = industry.stock(Good::Food);
        let ghost clothes_stock = industry.stock(Good::Clothes);
        let ghost food_orders = order_of(FOOD_BUDGET_PERCENT as int, food_price);
        let ghost clothes_orders = order_of(CLOTHES_BUDGET_PERCENT as int, clothes_price);
        let ghost opening = *market;
        let ghost funds = industry.total_money();
        proof {
            assert(market.at(Good::Food).is_open());
            assert(market.at(Good::Clothes).is_open());
            assert(market.at(Good::Labour).is_open());
            lemma_orders_non_negative(start, FOOD_BUDGET_PERCENT as int, food_price);
            lemma_orders_non_negative(start, CLOTHES_BUDGET_PERCENT as int, clothes_price);
            lemma_stock_non_negative(industry, Good::Food);
            lemma_stock_non_negative(industry, Good::Clothes);
            assert(0 * food_price == 0);
            assert(0 * clothes_price == 0);
        }
        let mut i: usize = 0;
        while i < n
            invariant
                n == start.len(),
                self.pops@.len() == n,
                i <= n,
                n > 0 ==> industry@.len() > 0,
                industry@.len() == old(industry)@.len(),
                industry.wf(),
                market.is_open(),
                food_price == opening.at(Good::Food).price,
                clothes_price == opening.at(Good::Clothes).price,
                food_price >= 1,
                clothes_price >= 1,
                food_stock >= 0,
                clothes_stock >= 0,
                food_orders == order_of(FOOD_BUDGET_PERCENT as int, food_price),
                clothes_orders == order_of(CLOTHES_BUDGET_PERCENT as int, clothes_price),
                non_negative(start, food_orders),
                non_negative(start, clothes_orders),
                forall|j: int| 0 <= j < n ==> (#[trigger] start[j]).fit(),
                forall|j: int| 0 <= j < n ==> (#[trigger] self.pops@[j]).wf(),
                forall|j: int|
                    0 <= j < n ==> #[trigger] self.pops@[j] == if j < i {
                        served(start, food_price, clothes_price, food_stock, clothes_stock)[j]
                    } else {
                        start[j]
                    },
                opening.at(Good::Food).demand + tally(start, food_orders) <= i32::MAX,
                opening.at(Good::Clothes).demand + tally(start, clothes_orders) <= i32::MAX,
                opening.at(Good::Labour).supply + LABOUR_OUTPUT * n <= i32::MAX,
                market.at(Good::Food) == opening.at(Good::Food).asked(
                    scanned(start, food_orders, 0, i as int),
                ),
                market.at(Good::Clothes) == opening.at(Good::Clothes).asked(
                    scanned(start, clothes_orders, 0, i as int),
                ),
                market.at(Good::Labour) == opening.at(Good::Labour).offered(LABOUR_OUTPUT * i),
                industry.stock(Good::Food) == food_stock - min(
                    food_stock,
                    scanned(start, food_orders, 0, i as int),
                ),
                industry.stock(Good::Clothes) == clothes_stock - min(
                    clothes_stock,
                    scanned(start, clothes_orders, 0, i as int),
                ),
                industry.stock(Good::Labour) == old(industry).stock(Good::Labour),
                industry.total_money() == funds + min(
                    food_stock,
                    scanned(start, food_orders, 0, i as int),
                ) * food_price + min(clothes_stock, scanned(start, clothes_orders, 0, i as int))
                    * clothes_price,
                tally(self.pops@, money_of()) + industry.total_money() == tally(start, money_of())
                    + funds,
                tally(start, money_of()) + funds <= i32::MAX,
                traded(old(industry)@, industry@),
                shelves == old(industry)@,
                starts.len() == 2 * i,
                industry@ == supplied(shelves, start, food_price, clothes_price, starts, i as int),
            decreases n - i,
        {
            let ghost prior = self.pops@;
            let ghost food_seen = scanned(start, food_orders, 0, i as int);
            let ghost clothes_seen = scanned(start, clothes_orders, 0, i as int);
            let mut pop = self.pops[i];
            proof {
                lemma_circle(n as int, 0);
                assert(visited(n as int, 0, i as int) == i);
                assert(turn(n as int, 0, i as int) == i);
                assert(pop == start[i as int]);
                assert(start[i as int].fit());
                lemma_money_non_negative(prior);
                lemma_tally_bounds(prior, money_of());
                assert(money_of()(prior[i as int]) <= tally(prior, money_of()));
                lemma_scanned_all(start, food_orders, 0);
                lemma_scanned_all(start, clothes_orders, 0);
                lemma_scanned_grows(start, food_orders, 0, i as int + 1, n as int);
                lemma_scanned_grows(start, clothes_orders, 0, i as int + 1, n as int);
                lemma_scanned_grows(start, food_orders, 0, 0, i as int);
                lemma_scanned_grows(start, clothes_orders, 0, 0, i as int);
                assert(food_orders(start[i as int]) >= 0);
                assert(clothes_orders(start[i as int]) >= 0);
                assert(LABOUR_OUTPUT * (i + 1) == LABOUR_OUTPUT * i + LABOUR_OUTPUT)
                    by (nonlinear_arith);
                assert(LABOUR_OUTPUT * (i + 1) <= LABOUR_OUTPUT * n) by (nonlinear_arith)
                    requires
                        i + 1 <= n,
                ;
            }
            let ghost counter = industry@;
            let ghost earlier = starts;
            pop.tick(industry, market);
            self.pops.set(i, pop);
            proof {
                let food_wanted = start[i as int].order(FOOD_BUDGET_PERCENT as int, food_price);
                let clothes_wanted = start[i as int].order(
                    CLOTHES_BUDGET_PERCENT as int,
                    clothes_price,
                );
                let (first, second) = choose|first: int, second: int|
                    0 <= first < counter.len() && 0 <= second < counter.len() && industry@
                        == #[trigger] sold_from(
                        sold_from(counter, first, Good::Food, food_wanted, food_price),
                        second,
                        Good::Clothes,
                        clothes_wanted,
                        clothes_price,
                    );
                starts = earlier.push(first).push(second);
                let count = shelves.len() as int;
                assert(first % count == first && second % count == second) by (nonlinear_arith)
                    requires
                        0 <= first < count,
                        0 <= second < count,
                ;
                lemma_supplied_starts(
                    shelves,
                    start,
                    food_price,
                    clothes_price,
                    earlier,
                    starts,
                    i as int,
                );
                assert(starts[2 * i] == first);
                assert(starts[2 * i + 1] == second);
                assert(industry@ == supplied(
                    shelves,
                    start,
                    food_price,
                    clothes_price,
                    starts,
                    i + 1,
                ));
            }
            proof {
                let food_order = start[i as int].order(FOOD_BUDGET_PERCENT as int, food_price);
                let clothes_order = start[i as int].order(
                    CLOTHES_BUDGET_PERCENT as int,
                    clothes_price,
                );
                let food_got = share(start, food_orders, 0, food_stock, i as int);
                let clothes_got = share(start, clothes_orders, 0, clothes_stock, i as int);
                assert(food_got == min(food_order, food_stock - min(food_stock, food_seen)));
                assert(clothes_got == min(
                    clothes_order,
                    clothes_stock - min(clothes_stock, clothes_seen),
                ));
                assert(min(food_stock, food_seen + food_order) == min(food_stock, food_seen)
                    + food_got);
                assert(min(clothes_stock, clothes_seen + clothes_order) == min(
                    clothes_stock,
                    clothes_seen,
                ) + clothes_got);
                let money = start[i as int].money as int;
                assert(0 <= food_got * food_price <= money * FOOD_BUDGET_PERCENT / 100)
                    by (nonlinear_arith)
                    requires
                        0 <= food_got <= food_order,
                        food_order == (money * FOOD_BUDGET_PERCENT / 100) / food_price,
                        0 <= money,
                        1 <= food_price,
                ;
                assert(0 <= clothes_got * clothes_price <= money * CLOTHES_BUDGET_PERCENT / 100)
                    by (nonlinear_arith)
                    requires
                        0 <= clothes_got <= clothes_order,
                        clothes_order == (money * CLOTHES_BUDGET_PERCENT / 100) / clothes_price,
                        0 <= money,
                        1 <= clothes_price,
                ;
                assert((min(food_stock, food_seen) + food_got) * food_price == min(
                    food_stock,
                    food_seen,
                ) * food_price + food_got * food_price) by (nonlinear_arith);
                assert((min(clothes_stock, clothes_seen) + clothes_got) * clothes_price == min(
                    clothes_stock,
                    clothes_seen,
                ) * clothes_price + clothes_got * clothes_price) by (nonlinear_arith);
                assert(pop == served(
                    start,
                    food_price,
                    clothes_price,
                    food_stock,
                    clothes_stock,
                )[i as int]);
                lemma_tally_update(prior, money_of(), i as int, pop);
                assert forall|good: Good| (#[trigger] market.at(good)).is_open() by {
                    if good == Good::Food {
                    } else if good == Good::Clothes {
                    } else {
                    }
                }
            }
            i += 1;
        }
        proof {
            if n > 0 {
                lemma_scanned_all(start, food_orders, 0);
                lemma_scanned_all(start, clothes_orders, 0);
            }
            assert(self.pops@ =~= served(
                start,
                food_price,
                clothes_price,
                food_stock,
                clothes_stock,
            ));
            assert forall|j: int| 0 <= j < n implies labour_of()(#[trigger] self.pops@[j])
                == LABOUR_OUTPUT by {}
            lemma_tally_constant(self.pops@, labour_of(), LABOUR_OUTPUT as int);
        }
    }

    /// The pass that ends the consumers' day. Every consumer is looked at
    /// once: the dead are removed, what each of them owned goes to one of the
    /// living, drawn by chance, and then the healthy among the living have
    /// children. See [`turned`].
    pub fn turnover(&mut self)
        requires
            old(self).wf(),
            old(self).total_money() <= i32::MAX,
        ensures
            exists|heirs: Seq<int>| final(self)@ == #[trigger] turned(old(self)@, heirs),
            forall|i: int| 0 <= i < final(self)@.len() ==> (#[trigger] final(self)@[i]).health > 0,
            (forall|i: int|
                0 <= i < old(self)@.len() ==> (#[trigger] old(self)@[i]).health < 2
                    * REPRODUCTION_HEALTH) ==> forall|i: int|
                0 <= i < final(self)@.len() ==> (#[trigger] final(self)@[i]).health
                    < REPRODUCTION_HEALTH,
            final(self).fit(),
            final(self)@.len() > 0 ==> final(self).total_money() == old(self).total_money(),
            0 <= final(self).total_money() <= old(self).total_money(),
            final(self)@.len() <= 2 * old(self)@.len(),
            0 <= final(self).total_labour() <= old(self).total_labour(),
    {
        let ghost start = self.pops@;
        let ghost young = forall|i: int|
            0 <= i < start.len() ==> (#[trigger] start[i]).health < 2 * REPRODUCTION_HEALTH;
        let n = self.pops.len();
        let mut kept: Vec<Pop> = Vec::new();
        let mut left: Vec<i32> = Vec::new();
        let mut idx: usize = 0;
        proof {
            lemma_money_non_negative(start);
            lemma_tally_bounds(start, money_of());
            lemma_tally_bounds(start, labour_of());
        }
        while idx < n
            invariant
                n == start.len(),
                self.pops@ == start,
                idx <= n,
                non_negative(start, money_of()),
                non_negative(start, labour_of()),
                forall|i: int| 0 <= i < start.len() ==> (#[trigger] start[i]).wf(),
                young == forall|i: int|
                    0 <= i < start.len() ==> (#[trigger] start[i]).health < 2
                        * REPRODUCTION_HEALTH,
                kept@ == living(start.take(idx as int)),
                left@ == estates(start.take(idx as int)),
                kept@.len() <= idx,
                forall|i: int|
                    0 <= i < kept@.len() ==> (#[trigger] kept@[i]).wf() && kept@[i].health > 0 && (
                    young ==> kept@[i].health < 2 * REPRODUCTION_HEALTH),
                forall|j: int| 0 <= j < left@.len() ==> #[trigger] left@[j] >= 0,
                tally(kept@, money_of()) + sum(left@) == tally(start.take(idx as int), money_of()),
                tally(kept@, labour_of()) <= tally(start.take(idx as int), labour_of()),
            decreases n - idx,
        {
            let pop = self.pops[idx];
            proof {
                assert(start.take(idx + 1).drop_last() =~= start.take(idx as int));
                assert(start.take(idx + 1).last() == pop);
                assert(start[idx as int].wf());
                lemma_tally_take(start, money_of(), idx as int);
                lemma_tally_take(start, labour_of(), idx as int);
                lemma_tally_push(kept@, money_of(), pop);
                lemma_tally_push(kept@, labour_of(), pop);
                lemma_tally_push(left@, amount_of(), pop.money);
            }
            if pop.health <= 0 {
                left.push(pop.money);
            } else {
                kept.push(pop);
            }
            idx += 1;
        }
        proof {
            assert(start.take(n as int) =~= start);
        }
        self.pops = kept;
        let ghost alive = self.pops@;
        proof {
            lemma_money_non_negative(alive);
            lemma_tally_bounds(alive, money_of());
            lemma_tally_bounds(alive, labour_of());
        }
        self.hand_out(&left);
        let ghost heirs = choose|heirs: Seq<int>|
            self@ == #[trigger] endowed(alive, left@, heirs);
        let ghost base = self.pops@;
        let m = self.pops.len();
        let ghost total = tally(base, money_of());
        let ghost offer = tally(base, labour_of());
        let mut k: usize = 0;
        proof {
            assert(base.take(0).len() == 0);
            assert forall|i: int| 0 <= i < base.len() implies (#[trigger] base[i]).wf()
                && base[i].health > 0 && (young ==> base[i].health < 2 * REPRODUCTION_HEALTH) by {
                assert(self@[i].wf());
                assert(self@[i].health == alive[i].health);
            }
        }
        while k < m
            invariant
                m == base.len(),
                k <= m,
                self.pops@.len() == m + children(base.take(k as int)).len(),
                children(base.take(k as int)).len() <= k,
                forall|i: int|
                    0 <= i < m ==> #[trigger] self.pops@[i] == if i < k && base[i].health
                        >= REPRODUCTION_HEALTH {
                        base[i].parent()
                    } else {
                        base[i]
                    },
                forall|i: int|
                    m <= i < self.pops@.len() ==> #[trigger] self.pops@[i] == children(
                        base.take(k as int),
                    )[i - m],
                forall|i: int|
                    0 <= i < base.len() ==> (#[trigger] base[i]).wf() && base[i].health > 0 && (
                    young ==> base[i].health < 2 * REPRODUCTION_HEALTH),
                forall|i: int|
                    0 <= i < self.pops@.len() ==> (#[trigger] self.pops@[i]).wf()
                        && self.pops@[i].health > 0,
                forall|i: int|
                    0 <= i < self.pops@.len() && (i < k || i >= m) ==> (
                    #[trigger] self.pops@[i]).health < i32::MAX && (young ==> self.pops@[i].health
                        < REPRODUCTION_HEALTH),
                tally(self.pops@, money_of()) == total,
                tally(self.pops@, labour_of()) == offer,
            decreases m - k,
        {
            let ghost prior = self.pops@;
            proof {
                assert(base.take(k + 1).drop_last() =~= base.take(k as int));
                assert(base.take(k + 1).last() == base[k as int]);
                assert(prior[k as int] == base[k as int]);
                assert(base[k as int].wf());
            }
            if self.pops[k].health >= REPRODUCTION_HEALTH {
                self.reproduce(k);
                proof {
                    let born = children(base.take(k + 1));
                    assert(born == children(base.take(k as int)).push(base[k as int].child()));
                    assert forall|i: int| m <= i < self.pops@.len() implies #[trigger] self.pops@[i]
                        == born[i - m] by {
                        if i < prior.len() {
                            assert(self.pops@[i] == prior[i]);
                        }
                    }
                    assert forall|i: int| 0 <= i < self.pops@.len() implies (
                    #[trigger] self.pops@[i]).wf() && self.pops@[i].health > 0 by {
                        if i < prior.len() && i != k {
                            assert(self.pops@[i] == prior[i]);
                            assert(prior[i].wf());
                        }
                    }
                    assert forall|i: int|
                        0 <= i < self.pops@.len() && (i < k + 1 || i >= m) implies (
                    #[trigger] self.pops@[i]).health < i32::MAX && (young ==> self.pops@[i].health
                        < REPRODUCTION_HEALTH) by {
                        if i < prior.len() && i != k {
                            assert(self.pops@[i] == prior[i]);
                        }
                    }
                }
            } else {
                proof {
                    assert(children(base.take(k + 1)) == children(base.take(k as int)));
                }
            }
            k += 1;
        }
        proof {
            assert(base.take(m as int) =~= base);
            assert(self.pops@ =~= grown(base) + children(base));
            assert(self@ == turned(start, heirs));
            lemma_money_non_negative(self.pops@);
            lemma_tally_bounds(self.pops@, labour_of());
            lemma_tally_bounds(self.pops@, money_of());
        }
    }

    /// Gives each of `bequests`, whole, to a consumer drawn by chance. Where
    /// there is no consumer, nothing happens, and the bequests are lost.
    pub fn hand_out(&mut self, bequests: &Vec<i32>)
        requires
            old(self).wf(),
            forall|j: int| 0 <= j < bequests@.len() ==> #[trigger] bequests@[j] >= 0,
            old(self).total_money() + sum(bequests@) <= i32::MAX,
        ensures
            exists|heirs: Seq<int>|
                final(self)@ == #[trigger] endowed(old(self)@, bequests@, heirs),
            final(self)@.len() == old(self)@.len(),
            final(self).wf(),
            forall|i: int|
                0 <= i < old(self)@.len() ==> {
                    &&& (#[trigger] final(self)@[i]).health == old(self)@[i].health
                    &&& final(self)@[i].labour == old(self)@[i].labour
                    &&& final(self)@[i].money >= old(self)@[i].money
                },
            old(self)@.len() > 0 ==> final(self).total_money() == old(self).total_money() + sum(
                bequests@,
            ),
            old(self)@.len() == 0 ==> final(self)@ == old(self)@,
            final(self).total_labour() == old(self).total_labour(),
    {
        let ghost start = self.pops@;
        let ghost mut heirs: Seq<int> = Seq::empty();
        let m = bequests.len();
        let mut j: usize = 0;
        proof {
            assert(bequests@.take(0).len() == 0);
            assert(non_negative(bequests@, amount_of())) by {
                assert forall|i: int| 0 <= i < bequests@.len() implies amount_of()(
                    #[trigger] bequests@[i],
                ) >= 0 by {}
            }
        }
        while j < m
            invariant
                m == bequests@.len(),
                j <= m,
                heirs.len() == j,
                non_negative(bequests@, amount_of()),
                self.pops@ == endowed(start, bequests@.take(j as int), heirs),
                self.pops@.len() == start.len(),
                forall|i: int| 0 <= i < self.pops@.len() ==> (#[trigger] self.pops@[i]).wf(),
                forall|i: int|
                    0 <= i < start.len() ==> (#[trigger] self.pops@[i]).health == start[i].health
                        && self.pops@[i].labour == start[i].labour && self.pops@[i].money
                        >= start[i].money,
                start.len() > 0 ==> tally(self.pops@, money_of()) == tally(start, money_of())
                    + sum(bequests@.take(j as int)),
                tally(self.pops@, labour_of()) == tally(start, labour_of()),
                tally(start, money_of()) + sum(bequests@) <= i32::MAX,
            decreases m - j,
        {
            let ghost prior = self.pops@;
            let ghost earlier = heirs;
            let bequest = bequests[j];
            proof {
                lemma_tally_take(bequests@, amount_of(), j as int);
                lemma_tally_take_le(bequests@, amount_of(), j + 1);
                lemma_money_non_negative(prior);
                lemma_tally_bounds(prior, money_of());
                assert forall|i: int| 0 <= i < self@.len() implies i32::MIN <= (
                #[trigger] self@[i]).money + bequest <= i32::MAX by {
                    assert(money_of()(prior[i]) <= tally(prior, money_of()));
                    assert(prior[i].wf());
                }
            }
            self.distribute_inheritance(Inheritance(bequest));
            j += 1;
            proof {
                let heir = if prior.len() == 0 {
                    0
                } else {
                    choose|heir: int|
                        0 <= heir < prior.len() && self.pops@ == prior.update(
                            heir,
                            (#[trigger] prior[heir]).credited(bequest as int),
                        )
                };
                heirs = earlier.push(heir);
                let given = bequests@.take(j as int);
                assert(given.drop_last() =~= bequests@.take(j - 1));
                assert(given.last() == bequest);
                lemma_endowed_heirs(start, bequests@.take(j - 1), earlier, heirs);
                if prior.len() > 0 {
                    assert(heir % (start.len() as int) == heir) by (nonlinear_arith)
                        requires
                            0 <= heir < start.len(),
                    ;
                    assert(prior[heir].wf());
                }
                assert(self.pops@ == endowed(start, given, heirs));
                assert forall|i: int| 0 <= i < self.pops@.len() implies (
                #[trigger] self.pops@[i]).wf() by {
                    assert(self@[i].wf());
                }
            }
        }
        proof {
            assert(bequests@.take(m as int) =~= bequests@);
        }
    }

    /// Gives an inheritance to a consumer drawn by chance. Where there is no
    /// consumer, nothing happens, and the inheritance is lost.
    pub fn distribute_inheritance(&mut self, inheritance: Inheritance)
        requires
            forall|i: int|
                0 <= i < old(self)@.len() ==> i32::MIN <= (#[trigger] old(self)@[i]).money
                    + inheritance.0 <= i32::MAX,
        ensures
            old(self)@.len() == 0 ==> final(self)@ == old(self)@,
            old(self)@.len() != 0 ==> exists|heir: int|
                0 <= heir < old(self)@.len() && final(self)@ == old(self)@.update(
                    heir,
                    (#[trigger] old(self)@[heir]).credited(inheritance.0 as int),
                ),
            final(self)@.len() == old(self)@.len(),
            old(self)@.len() != 0 ==> final(self).total_money() == old(self).total_money()
                + inheritance.0,
            old(self).wf() && inheritance.0 >= 0 ==> final(self).wf(),
            final(self).total_labour() == old(self).total_labour(),
    {
        let ghost before = self.pops@;
        let chosen = choose_mut(&mut self.pops);
        if let Some(heir) = chosen {
            let ghost was = *heir;
            proof {
                let j = choose|j: int| 0 <= j < before.len() && was == before[j];
                assert(old(self)@[j] == was);
            }
            heir.inherit(inheritance);
            proof {
                let i = choose|i: int|
                    0 <= i < before.len() && was == before[i] && final(self).pops@
                        == before.update(i, *final(heir));
                lemma_tally_update(before, money_of(), i, was.credited(inheritance.0 as int));
                lemma_tally_update(before, labour_of(), i, was.credited(inheritance.0 as int));
            }
        }
    }

    /// The money of all consumers together, however much it is.
    pub fn wealth(&self) -> (total: i128)
        ensures
            total == self.total_money(),
    {
        let n = self.pops.len();
        let mut sum: i128 = 0;
        let mut i: usize = 0;
        while i < n
            invariant
                n == self.pops@.len(),
                i <= n,
                sum == tally(self.pops@.take(i as int), money_of()),
                -0x8000_0000 * i <= sum <= 0x8000_0000 * i,
            decreases n - i,
        {
            proof {
                lemma_tally_take(self.pops@, money_of(), i as int);
            }
            sum = sum + self.pops[i].money as i128;
            i += 1;
        }
        proof {
            assert(self.pops@.take(n as int) =~= self.pops@);
        }
        sum
    }

    /// Whether every consumer is well-formed.
    pub fn is_wf(&self) -> (ok: bool)
        ensures
            ok == self.wf(),
    {
        let n = self.pops.len();
        let mut i: usize = 0;
        while i < n
            invariant
                n == self.pops@.len(),
                i <= n,
                forall|j: int| 0 <= j < i ==> (#[trigger] self.pops@[j]).wf(),
            decreases n - i,
        {
            let pop = self.pops[i];
            if pop.money < 0 || pop.labour < 0 {
                assert(!self@[i as int].wf());
                return false;
            }
            i += 1;
        }
        true
    }

    /// Whether every consumer can go through a day.
    pub fn is_fit(&self) -> (ok: bool)
        ensures
            ok == self.fit(),
    {
        let n = self.pops.len();
        let mut i: usize = 0;
        while i < n
            invariant
                n == self.pops@.len(),
                i <= n,
                forall|j: int| 0 <= j < i ==> (#[trigger] self.pops@[j]).fit(),
            decreases n - i,
        {
            let pop = self.pops[i];
            if pop.money < 0 || pop.labour < 0 || pop.health == i32::MIN || pop.health
                == i32::MAX {
                assert(!self@[i as int].fit());
                return false;
            }
            i += 1;
        }
        true
    }

    /// The money of all consumers together.
    pub fn money_supply(&self) -> (total: i32)
        requires
            i32::MIN <= self.total_money() <= i32::MAX,
        ensures
            total == self.total_money(),
    {
        self.wealth() as i32
    }
}

/// No consumer that owes nothing orders less than nothing.
pub proof fn lemma_orders_non_negative(pops: Seq<Pop>, percent: int, price: int)
    requires
        forall|i: int| 0 <= i < pops.len() ==> (#[trigger] pops[i]).wf(),
        0 <= percent,
        1 <= price,
    ensures
        non_negative(pops, order_of(percent, price)),
{
    assert forall|i: int| 0 <= i < pops.len() implies order_of(percent, price)(
        #[trigger] pops[i],
    ) >= 0 by {
        let money = pops[i].money as int;
        assert(pops[i].wf());
        assert(0 <= (money * percent / 100) / price) by (nonlinear_arith)
            requires
                0 <= money,
                0 <= percent,
                1 <= price,
        ;
    }
}

/// Where every consumer is well-formed, no money is negative.
pub proof fn lemma_money_non_negative(pops: Seq<Pop>)
    requires
        forall|i: int| 0 <= i < pops.len() ==> (#[trigger] pops[i]).wf(),
    ensures
        non_negative(pops, money_of()),
        non_negative(pops, labour_of()),
{
    assert forall|i: int| 0 <= i < pops.len() implies money_of()(#[trigger] pops[i]) >= 0 by {
        assert(pops[i].wf());
    }
    assert forall|i: int| 0 <= i < pops.len() implies labour_of()(#[trigger] pops[i]) >= 0 by {
        assert(pops[i].wf());
    }
}

/// What an order for `target` units of labour at `price` each gets from the
/// consumers.
pub open spec fn hired(pops: Seq<Pop>, target: int, price: int) -> Purchase {
    Purchase {
        amount: filled(pops, labour_of(), target) as i32,
        cost: (filled(pops, labour_of(), target) * price) as i32,
    }
}

/// No consumer owns more than all consumers together, and an order that
/// costs no more than `budget` can be settled where the sellers' money and
/// the budget together fit in 32 bits.
pub proof fn lemma_can_hire(population: &Population, target: int, price: int, budget: int)
    requires
        population.wf(),
        0 <= target,
        0 <= price,
        target * price <= budget,
        population.total_money() + budget <= i32::MAX,
    ensures
        population.can_hire(target, price),
        0 <= filled(population@, labour_of(), target) <= target,
        0 <= filled(population@, labour_of(), target) * price <= budget,
        0 <= population.total_money(),
{
    let s = population@;
    assert(non_negative(s, money_of())) by {
        assert forall|i: int| 0 <= i < s.len() implies money_of()(#[trigger] s[i]) >= 0 by {
            assert(s[i].wf());
        }
    }
    assert(non_negative(s, labour_of())) by {
        assert forall|i: int| 0 <= i < s.len() implies labour_of()(#[trigger] s[i]) >= 0 by {
            assert(s[i].wf());
        }
    }
    lemma_tally_bounds(s, money_of());
    lemma_tally_bounds(s, labour_of());
    let got = filled(s, labour_of(), target);
    assert(0 <= got * price <= target * price) by (nonlinear_arith)
        requires
            0 <= got <= target,
            0 <= price,
    ;
    assert forall|i: int| 0 <= i < s.len() implies (#[trigger] s[i]).money + min(
        s[i].labour as int,
        target,
    ) * price <= i32::MAX by {
        let part = min(s[i].labour as int, target);
        assert(s[i].wf());
        assert(money_of()(s[i]) <= tally(s, money_of()));
        assert(0 <= part * price <= target * price) by (nonlinear_arith)
            requires
                0 <= part <= target,
                0 <= price,
        ;
    }
}

} // verus!
