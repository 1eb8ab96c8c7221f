//! The factories: they hire labour, make food and clothes, sell from their
//! inventory, and are founded and closed by their money.

use vstd::prelude::*;
use crate::bns::{buy_labour, publish_for_sale, Purchase};
use crate::market::MarketNetwork;
use crate::population::{
    endowed, hired, hired_from, labour_of, lemma_can_hire, lemma_money_non_negative, money_of,
    Pop, Population,
};
use crate::production::Schedule;
use crate::chance::{random_index, shuffle};
use crate::good::Good;
use crate::misc::Inheritance;
use crate::scan::{
    filled, lemma_circle, lemma_scanned_all, lemma_scanned_grows, lemma_share_bounds, min, scanned,
    share, turn, visited,
};
use crate::tally::{
    amount_of, lemma_same_items, lemma_tally_bounds, lemma_tally_permutation, lemma_tally_push,
    lemma_tally_swap_remove, lemma_tally_take, lemma_tally_take_le, lemma_tally_update,
    non_negative, sum, tally,
};

verus! {

/// What it costs to found a factory.
pub const FACTORY_COST: i32 = 5000;

/// Hundredths of its money that a factory sets aside for labour each day.
pub const LABOUR_BUDGET_PERCENT: i32 = 80;

/// Units of labour without which a factory does not work that day.
pub const MIN_LABOUR: i32 = 1;

/// Days in a row without work after which a factory is closed for good.
pub const MAX_DAYS_CLOSED: i32 = 5;

/// A producer of one good.
#[derive(Debug, Clone, Copy, PartialEq, Eq, Structural)]
pub struct Factory {
    pub good: Good,
    pub money: i32,
    /// Units made and not yet sold.
    pub inventory: i32,
    /// Days in a row on which the factory could hire nobody.
    pub days_closed: i32,
}

/// The money of a factory.
pub open spec fn funds_of() -> spec_fn(Factory) -> int {
    |factory: Factory| factory.money as int
}

/// What a factory has on offer of `good`.
pub open spec fn stock_of(good: Good) -> spec_fn(Factory) -> int {
    |factory: Factory| factory.offer(good)
}

/// One for a factory that makes `good`, nothing for any other.
pub open spec fn makes(good: Good) -> spec_fn(Factory) -> int {
    |factory: Factory| if factory.good == good { 1int } else { 0int }
}

/// The factories of `factories` that stay open, in their order: those that
/// have not been idle for [`MAX_DAYS_CLOSED`] days.
pub open spec fn lasting(factories: Seq<Factory>) -> Seq<Factory>
    decreases factories.len(),
{
    if factories.len() == 0 {
        factories
    } else if factories.last().days_closed < MAX_DAYS_CLOSED {
        lasting(factories.drop_last()).push(factories.last())
    } else {
        lasting(factories.drop_last())
    }
}

/// What the factories of `factories` that are closed leave behind, in their
/// order.
pub open spec fn closures(factories: Seq<Factory>) -> Seq<i32>
    decreases factories.len(),
{
    if factories.len() == 0 {
        Seq::empty()
    } else if factories.last().days_closed < MAX_DAYS_CLOSED {
        closures(factories.drop_last())
    } else {
        closures(factories.drop_last()).push(factories.last().money)
    }
}

/// The factories of `factories`, each after it has founded another if it
/// owns twice the cost of one.
pub open spec fn founders(factories: Seq<Factory>) -> Seq<Factory> {
    Seq::new(
        factories.len(),
        |i: int|
            if factories[i].money >= FACTORY_COST * 2 {
                factories[i].founder()
            } else {
                factories[i]
            },
    )
}

/// The factories that those of `factories` found that own twice the cost of
/// one, in the order of their founders.
pub open spec fn branches(factories: Seq<Factory>) -> Seq<Factory>
    decreases factories.len(),
{
    if factories.len() == 0 {
        factories
    } else if factories.last().money >= FACTORY_COST * 2 {
        branches(factories.drop_last()).push(factories.last().branch())
    } else {
        branches(factories.drop_last())
    }
}

/// The factories and the consumers after the pass that ends the factories'
/// day.
///
/// Every factory is looked at once. Those that have been idle for
/// [`MAX_DAYS_CLOSED`] days are gone. What each of them owned has gone to
/// one of the consumers, as `heirs` names them (see [`endowed`]). Each of
/// the factories that stay and own twice the cost of a factory has founded
/// another: those that stay keep their order, and the new ones stand behind
/// them.
pub open spec fn reorganised(factories: Seq<Factory>, pops: Seq<Pop>, heirs: Seq<int>) -> (
    Seq<Factory>,
    Seq<Pop>,
) {
    (
        founders(lasting(factories)) + branches(lasting(factories)),
        endowed(pops, closures(factories), heirs),
    )
}

/// `after` is what `before` can become by selling: each factory makes what
/// it made and has been idle as long as it had been, and has no more in its
/// inventory and no less money than it had.
pub open spec fn traded(before: Seq<Factory>, after: Seq<Factory>) -> bool {
    &&& after.len() == before.len()
    &&& forall|i: int|
        0 <= i < before.len() ==> {
            &&& (#[trigger] after[i]).good == before[i].good
            &&& after[i].days_closed == before[i].days_closed
            &&& after[i].inventory <= before[i].inventory
            &&& after[i].money >= before[i].money
        }
}

/// What a factory orders of labour at `price` each.
pub open spec fn labour_order_of(price: int) -> spec_fn(Factory) -> int {
    |factory: Factory| factory.labour_order(price)
}

/// What the factory at position `i` hires when the factories order one
/// after another, from the first on, from consumers that offer `labour`
/// units in all: its order, or what the factories before it have left, if
/// that is less.
pub open spec fn shift(factories: Seq<Factory>, price: int, labour: int, i: int) -> Purchase {
    Purchase {
        amount: share(factories, labour_order_of(price), 0, labour, i) as i32,
        cost: (share(factories, labour_order_of(price), 0, labour, i) * price) as i32,
    }
}

/// The factories at the end of a day on which they hired one after another,
/// from the first on, at `price` for a unit of labour, from consumers that
/// offered `labour` units in all, and made what `schedule` gives.
pub open spec fn operated(
    factories: Seq<Factory>,
    price: int,
    labour: int,
    schedule: Schedule,
) -> Seq<Factory> {
    Seq::new(
        factories.len(),
        |i: int| factories[i].worked(shift(factories, price, labour, i), schedule),
    )
}

impl Factory {
    /// A factory can go through a day: it is well-formed, and its count of
    /// idle days can go up by one.
    pub open spec fn fit(self) -> bool {
        &&& self.wf()
        &&& self.days_closed < i32::MAX
    }

    /// A factory makes a commodity, owes nothing, and counts no less than
    /// nothing.
    pub open spec fn wf(self) -> bool {
        &&& self.good.is_commodity()
        &&& self.money >= 0
        &&& self.inventory >= 0
        &&& self.days_closed >= 0
    }

    /// What the factory has on offer of `good`: its inventory, if that is
    /// what it makes.
    pub open spec fn offer(self, good: Good) -> int {
        if self.good == good {
            self.inventory as int
        } else {
            0
        }
    }

    /// The factory after selling `amount` units at `price` each.
    pub open spec fn sold(self, amount: int, price: int) -> Factory {
        Factory {
            good: self.good,
            money: (self.money + amount * price) as i32,
            inventory: (self.inventory - amount) as i32,
            days_closed: self.days_closed,
        }
    }

    /// The factory after it has founded another.
    pub open spec fn founder(self) -> Factory {
        Factory { money: (self.money - FACTORY_COST) as i32, ..self }
    }

    /// The factory that this one founds: it makes the same good.
    pub open spec fn branch(self) -> Factory {
        Factory { good: self.good, money: FACTORY_COST, inventory: 0, days_closed: 0 }
    }

    /// How many units of labour the factory orders at `price` each, with 80
    /// hundredths of its money. What the division leaves over is not spent.
    pub open spec fn labour_order(self, price: int) -> int {
        (self.money * LABOUR_BUDGET_PERCENT / 100) / price
    }

    /// The factory after it has paid for `hire`. With less than a unit of
    /// labour it stays closed for the day. With more it works: the count of
    /// idle days starts again, and of its inventory the part that keeps is
    /// left.
    pub open spec fn staffed(self, hire: Purchase) -> Factory {
        if hire.amount < MIN_LABOUR {
            Factory {
                good: self.good,
                money: (self.money - hire.cost) as i32,
                inventory: self.inventory,
                days_closed: (self.days_closed + 1) as i32,
            }
        } else {
            Factory {
                good: self.good,
                money: (self.money - hire.cost) as i32,
                inventory: (self.inventory * self.good.retention() / 100) as i32,
                days_closed: 0,
            }
        }
    }

    /// The factory with `output` more units in its inventory.
    pub open spec fn stocked(self, output: int) -> Factory {
        Factory { inventory: (self.inventory + output) as i32, ..self }
    }

    /// The factory at the end of a day on which it got `hire`: if it worked,
    /// what `schedule` gives for the labour at work has come into the
    /// inventory.
    pub open spec fn worked(self, hire: Purchase, schedule: Schedule) -> Factory {
        if hire.amount < MIN_LABOUR {
            self.staffed(hire)
        } else {
            self.staffed(hire).stocked(schedule.table(self.good)[hire.amount as int] as int)
        }
    }

    /// Pays for `hire` and starts the working day, if there is one. Returns
    /// the labour at work.
    pub fn employ(&mut self, hire: Purchase) -> (labour: i32)
        requires
            old(self).good.is_commodity(),
            i32::MIN <= old(self).money - hire.cost <= i32::MAX,
            old(self).days_closed < i32::MAX,
            0 <= old(self).inventory,
        ensures
            *final(self) == old(self).staffed(hire),
            labour == hire.amount,
            final(self).inventory <= old(self).inventory,
            0 <= final(self).inventory,
    {
        self.money = self.money - hire.cost;
        if hire.amount < MIN_LABOUR {
            self.days_closed = self.days_closed + 1;
            return hire.amount;
        }
        self.days_closed = 0;
        self.inventory = (self.inventory as i64 * self.good.retention_percent() as i64
            / 100) as i32;
        hire.amount
    }

    /// Takes `output` units into the inventory and offers the whole inventory
    /// on the market of the factory's good.
    pub fn restock(&mut self, market: &mut MarketNetwork, output: i32)
        requires
            old(self).wf(),
            0 <= output,
            old(self).inventory + output <= i32::MAX,
            old(market).at(old(self).good).supply + old(self).inventory + output <= i32::MAX,
        ensures
            *final(self) == old(self).stocked(output as int),
            final(self).wf(),
            final(market).at(old(self).good) == old(market).at(old(self).good).offered(
                old(self).inventory + output,
            ),
            forall|other: Good|
                other != old(self).good ==> #[trigger] final(market).at(other) == old(market).at(
                    other,
                ),
    {
        self.inventory = self.inventory + output;
        publish_for_sale(market, self.good, self.inventory);
    }

    /// A day in the life of a factory: it orders labour with 80 hundredths
    /// of its money and pays for what it gets. With less than
    /// [`MIN_LABOUR`] it stays closed and counts an idle day. Otherwise it
    /// works: of its inventory the part that keeps is left, and what
    /// `schedule` gives for the labour at work is added. Idle or not, it
    /// offers its whole inventory on the market.
    ///
    /// There must be a consumer to order from, prices of at least 1, a
    /// schedule that says what any labour on offer makes, and room in 32
    /// bits: for the factory's money on top of the consumers', for the
    /// greatest output on top of the inventory, and on the markets for what
    /// is ordered and offered.
    pub fn tick(
        &mut self,
        population: &mut Population,
        market: &mut MarketNetwork,
        schedule: &Schedule,
    )
        requires
            old(self).fit(),
            old(market).is_open(),
            old(population)@.len() > 0,
            old(population).wf(),
            old(population).total_money() + old(self).money <= i32::MAX,
            old(market).at(Good::Labour).demand + old(self).labour_order(
                old(market).at(Good::Labour).price as int,
            ) <= i32::MAX,
            schedule.wf(),
            schedule.covers(old(population).total_labour()),
            old(self).inventory + schedule.peak() <= i32::MAX,
            old(market).at(old(self).good).supply + old(self).inventory + schedule.peak()
                <= i32::MAX,
        ensures
            ({
                let price = old(market).at(Good::Labour).price as int;
                let order = old(self).labour_order(price);
                let hire = hired(old(population)@, order, price);
                &&& *final(self) == old(self).worked(hire, *schedule)
                &&& final(self).wf()
                &&& final(self).money <= old(self).money
                &&& final(self).inventory <= old(self).inventory + schedule.peak()
                &&& final(market).at(Good::Labour) == old(market).at(Good::Labour).asked(order)
                &&& forall|good: Good|
                    good != Good::Labour ==> #[trigger] final(market).at(good) == old(market).at(
                        good,
                    ).offered(final(self).offer(good))
                &&& exists|offset: int|
                    0 <= offset < old(population)@.len() && final(population)@
                        == #[trigger] hired_from(old(population)@, offset, order, price)
                &&& final(population)@.len() == old(population)@.len()
                &&& final(population).wf()
                &&& final(population).total_money() + final(self).money
                    == old(population).total_money() + old(self).money
                &&& final(population).total_labour() == old(population).total_labour()
                    - hire.amount
                &&& forall|i: int|
                    0 <= i < old(population)@.len() ==> (#[trigger] final(population)@[i]).health
                        == old(population)@[i].health
                &&& 0 <= hire.amount <= order
            }),
    {
        let ghost price = market.at(Good::Labour).price as int;
        let ghost opening = *market;
        assert(market.at(Good::Labour).is_open());
        assert(market.at(self.good).is_open());
        let budget_labour = (self.money as i64 * LABOUR_BUDGET_PERCENT as i64 / 100) as i32;
        let target_amount = budget_labour / market.price(Good::Labour);
        proof {
            assert(0 <= target_amount * price <= budget_labour) by (nonlinear_arith)
                requires
                    target_amount == budget_labour as int / price,
                    0 <= budget_labour,
                    1 <= price,
            ;
            assert(0 <= target_amount) by (nonlinear_arith)
                requires
                    target_amount == budget_labour as int / price,
                    0 <= budget_labour,
                    1 <= price,
            ;
            lemma_can_hire(population, target_amount as int, price, budget_labour as int);
            lemma_money_non_negative(population@);
            lemma_tally_bounds(population@, labour_of());
        }
        let hire = buy_labour(population, market, target_amount);
        let labour = self.employ(hire);
        if labour < MIN_LABOUR {
            self.restock(market, 0);
        } else {
            let output = schedule.output(self.good, labour);
            proof {
                assert(0 <= schedule.table(self.good)[labour as int] <= schedule.peak());
            }
            self.restock(market, output);
        }
        proof {
            assert forall|good: Good| good != Good::Labour implies #[trigger] market.at(good)
                == opening.at(good).offered(self.offer(good)) by {
                assert(opening.at(good).is_open());
            }
        }
    }

    /// A factory that makes `good` and owns `money`, with nothing made yet.
    pub fn new(good: Good, money: i32) -> (factory: Self)
        ensures
            factory == (Factory { good, money, inventory: 0, days_closed: 0 }),
    {
        Self { good, money, inventory: 0, days_closed: 0 }
    }
}

/// The factories after an order for `target` units of `good` at `price`
/// each, filled by a circle that starts at `offset`.
pub open spec fn sold_from(
    factories: Seq<Factory>,
    offset: int,
    good: Good,
    target: int,
    price: int,
) -> Seq<Factory> {
    Seq::new(
        factories.len(),
        |i: int| factories[i].sold(share(factories, stock_of(good), offset, target, i), price),
    )
}

/// `n` copies of `factory`.
pub open spec fn copies(n: int, factory: Factory) -> Seq<Factory> {
    Seq::new(n as nat, |i: int| factory)
}

/// What an industry is to start with: for each good, how many factories and
/// what each of them is like.
pub struct IndustryBuilder {
    food: Option<(usize, Factory)>,
    clothes: Option<(usize, Factory)>,
    labour: Option<(usize, Factory)>,
}

impl IndustryBuilder {
    /// What has been laid down for `good`, if anything.
    pub closed spec fn plan(&self, good: Good) -> Option<(usize, Factory)> {
        match good {
            Good::Food => self.food,
            Good::Clothes => self.clothes,
            Good::Labour => self.labour,
        }
    }

    /// The factories that the plan for `good` stands for.
    pub open spec fn batch(&self, good: Good) -> Seq<Factory> {
        match self.plan(good) {
            Some((n, factory)) => copies(n as int, factory),
            None => Seq::empty(),
        }
    }

    /// A builder with nothing laid down.
    pub fn new() -> (builder: Self)
        ensures
            forall|good: Good| builder.plan(good) is None,
    {
        IndustryBuilder { food: None, clothes: None, labour: None }
    }

    /// Lays down `num_factories` factories like `initial_state`, in place of
    /// whatever was laid down for the good that they make.
    pub fn with(self, num_factories: usize, initial_state: Factory) -> (builder: Self)
        requires
            num_factories != 0,
        ensures
            builder.plan(initial_state.good) == Some((num_factories, initial_state)),
            forall|good: Good|
                good != initial_state.good ==> #[trigger] builder.plan(good) == self.plan(good),
    {
        let mut builder = self;
        match initial_state.good {
            Good::Food => {
                builder.food = Some((num_factories, initial_state));
            },
            Good::Clothes => {
                builder.clothes = Some((num_factories, initial_state));
            },
            Good::Labour => {
                builder.labour = Some((num_factories, initial_state));
            },
        }
        builder
    }

    /// Appends `n` copies of `factory`.
    fn extend(factories: &mut Vec<Factory>, n: usize, factory: Factory)
        ensures
            final(factories)@ == old(factories)@ + copies(n as int, factory),
    {
        let ghost before = factories@;
        let mut i: usize = 0;
        while i < n
            invariant
                i <= n,
                factories@ == before + copies(i as int, factory),
            decreases n - i,
        {
            factories.push(factory);
            i += 1;
            proof {
                assert(factories@ =~= before + copies(i as int, factory));
            }
        }
    }

    /// The industry that was laid down: the factories for food, then those
    /// for clothes, then those for labour.
    pub fn build(self) -> (industry: Industry)
        ensures
            industry@ == self.batch(Good::Food) + self.batch(Good::Clothes) + self.batch(
                Good::Labour,
            ),
    {
        let mut factories: Vec<Factory> = Vec::new();
        if let Some((n, factory)) = self.food {
            IndustryBuilder::extend(&mut factories, n, factory);
        }
        if let Some((n, factory)) = self.clothes {
            IndustryBuilder::extend(&mut factories, n, factory);
        }
        if let Some((n, factory)) = self.labour {
            IndustryBuilder::extend(&mut factories, n, factory);
        }
        proof {
            assert(factories@ =~= self.batch(Good::Food) + self.batch(Good::Clothes) + self.batch(
                Good::Labour,
            ));
        }
        Industry { factories }
    }
}

impl Default for IndustryBuilder {
    /// A builder with nothing laid down.
    fn default() -> (builder: Self)
        ensures
            forall|good: Good| builder.plan(good) is None,
    {
        IndustryBuilder::new()
    }
}

/// All the factories.
pub struct Industry {
    factories: Vec<Factory>,
}

impl View for Industry {
    type V = Seq<Factory>;

    /// The factories, in their order.
    closed spec fn view(&self) -> Seq<Factory> {
        self.factories@
    }
}

/// The consumers after the first `k` factories of `factories` have each
/// ordered labour from them, at `price` for a unit.
///
/// Each order is filled by a circle of its own. `starts` names where the
/// circles start, one for each factory: a number stands for the position
/// that it leaves on division by the number of consumers.
pub open spec fn employed(
    pops: Seq<Pop>,
    factories: Seq<Factory>,
    price: int,
    starts: Seq<int>,
    k: int,
) -> Seq<Pop>
    decreases k,
{
    if k <= 0 {
        pops
    } else {
        hired_from(
            employed(pops, factories, price, starts, k - 1),
            starts[k - 1] % (pops.len() as int),
            factories[k - 1].labour_order(price),
            price,
        )
    }
}

/// What the first `k` factories make of the consumers depends on the starts
/// of their own circles only.
pub proof fn lemma_employed_starts(
    pops: Seq<Pop>,
    factories: Seq<Factory>,
    price: int,
    a: Seq<int>,
    b: Seq<int>,
    k: int,
)
    requires
        0 <= k <= a.len(),
        k <= b.len(),
        forall|j: int| 0 <= j < k ==> a[j] == b[j],
    ensures
        employed(pops, factories, price, a, k) == employed(pops, factories, price, b, k),
        employed(pops, factories, price, a, k).len() == pops.len(),
    decreases k,
{
    if k > 0 {
        lemma_employed_starts(pops, factories, price, a, b, k - 1);
        assert(a[k - 1] == b[k - 1]);
    }
}

/// What a day of the factories makes of the factories `before`, the
/// consumers `consumers` and the markets `markets`, where labour makes what
/// `schedule` gives.
///
/// The factories work in some order of their own, and the pass that ends
/// their day goes over them in that order and names an heir for each that
/// is closed: afterwards none has been idle for [`MAX_DAYS_CLOSED`] days.
/// On the market of labour the orders are counted as demand, and on the
/// markets of food and clothes what the factories have in their inventories
/// at the end of their working day as supply, idle or not. The consumers are paid: what they sell
/// in all and what they get for it does not depend on the order. No money
/// comes into being, and none is lost where there are consumers.
pub open spec fn factories_day(
    before: Industry,
    consumers: Population,
    markets: MarketNetwork,
    schedule: Schedule,
    after: Industry,
    paid: Population,
    counted: MarketNetwork,
) -> bool {
    let price = markets.at(Good::Labour).price as int;
    let orders = before.labour_orders(price);
    let labour = consumers.total_labour();
    &&& exists|order: Seq<Factory>, starts: Seq<int>, heirs: Seq<int>|
        {
            &&& order.to_multiset() == before@.to_multiset()
            &&& (after@, paid@) == #[trigger] reorganised(
                operated(order, price, labour, schedule),
                employed(consumers@, order, price, starts, before@.len() as int),
                heirs,
            )
            &&& forall|good: Good|
                good != Good::Labour
                    ==> #[trigger] counted.at(good) == markets.at(good).offered(
                    tally(operated(order, price, labour, schedule), stock_of(good)),
                )
        }
    &&& counted.at(Good::Labour) == markets.at(Good::Labour).asked(orders)
    &&& counted.is_open()
    &&& forall|good: Good|
        good != Good::Labour ==> {
            &&& (#[trigger] counted.at(good)).price == markets.at(good).price
            &&& counted.at(good).demand == markets.at(good).demand
            &&& counted.at(good).momentum == markets.at(good).momentum
        }
    &&& after.fit()
    &&& forall|i: int|
        0 <= i < after@.len() ==> (#[trigger] after@[i]).days_closed < MAX_DAYS_CLOSED
    &&& after@.len() <= 2 * before@.len()
    &&& paid.wf()
    &&& consumers.fit() ==> paid.fit()
    &&& paid@.len() == consumers@.len()
    &&& consumers@.len() > 0 ==> after.total_money() + paid.total_money()
        == before.total_money() + consumers.total_money()
    &&& after.total_money() + paid.total_money() <= before.total_money()
        + consumers.total_money()
}

impl Industry {
    /// Every factory is well-formed.
    pub open spec fn wf(&self) -> bool {
        forall|i: int| 0 <= i < self@.len() ==> (#[trigger] self@[i]).wf()
    }

    /// The money of all factories together.
    pub open spec fn total_money(&self) -> int {
        tally(self@, funds_of())
    }

    /// What all factories together have on offer of `good`.
    pub open spec fn stock(&self, good: Good) -> int {
        tally(self@, stock_of(good))
    }

    /// An order for `target` units of `good` at `price` each can be settled
    /// in 32 bits, wherever the circle starts.
    pub open spec fn can_sell(&self, good: Good, target: int, price: int) -> bool {
        &&& 0 <= target
        &&& 0 <= price
        &&& self.wf()
        &&& filled(self@, stock_of(good), target) * price <= i32::MAX
        &&& forall|i: int|
            0 <= i < self@.len() ==> (#[trigger] self@[i]).money + min(
                self@[i].offer(good),
                target,
            ) * price <= i32::MAX
    }

    /// Every factory can go through a day.
    pub open spec fn fit(&self) -> bool {
        forall|i: int| 0 <= i < self@.len() ==> (#[trigger] self@[i]).fit()
    }

    /// What all factories together order of labour at `price` each.
    pub open spec fn labour_orders(&self, price: int) -> int {
        tally(self@, labour_order_of(price))
    }

    /// The markets have room for what the factories may offer of `good` in a
    /// day on which each makes as much as `schedule` gives at most.
    pub open spec fn has_room(&self, market: &MarketNetwork, schedule: &Schedule, good: Good)
        -> bool {
        market.at(good).supply + self.stock(good) + schedule.peak() * self@.len() <= i32::MAX
    }

    /// The factories of `factories`, in their order.
    pub fn from_factories(factories: Vec<Factory>) -> (industry: Self)
        ensures
            industry@ == factories@,
    {
        Industry { factories }
    }

    /// The factory at position `idx`.
    pub fn factory(&self, idx: usize) -> (factory: Factory)
        requires
            idx < self@.len(),
        ensures
            factory == self@[idx as int],
    {
        self.factories[idx]
    }

    /// How many factories there are.
    pub fn count(&self) -> (n: usize)
        ensures
            n == self@.len(),
    {
        self.factories.len()
    }

    /// Puts the factories into an order drawn by chance.
    pub fn shuffle(&mut self)
        ensures
            final(self)@.to_multiset() == old(self)@.to_multiset(),
            final(self)@.len() == old(self)@.len(),
            final(self).total_money() == old(self).total_money(),
            forall|good: Good| final(self).stock(good) == old(self).stock(good),
            old(self).wf() ==> final(self).wf(),
    {
        let ghost before = self.factories@;
        shuffle(&mut self.factories);
        proof {
            lemma_tally_permutation(self.factories@, before, funds_of());
            assert forall|good: Good| self.stock(good) == tally(before, stock_of(good)) by {
                lemma_tally_permutation(self.factories@, before, stock_of(good));
            }
            if old(self).wf() {
                assert forall|i: int| 0 <= i < before.len() implies (#[trigger] before[i]).wf() by {
                    assert(old(self)@[i].wf());
                }
                lemma_same_items(before, self.factories@, |factory: Factory| factory.wf());
            }
        }
    }

    /// The working day of all factories, one after another from the first
    /// on: see [`Factory::tick`]. Who comes first hires first.
    pub fn operate(
        &mut self,
        population: &mut Population,
        market: &mut MarketNetwork,
        schedule: &Schedule,
    )
        requires
            old(self).fit(),
            old(population).wf(),
            old(market).is_open(),
            old(self)@.len() > 0 ==> old(population)@.len() > 0,
            old(self).total_money() + old(population).total_money() <= i32::MAX,
            old(market).at(Good::Labour).demand + old(self).labour_orders(
                old(market).at(Good::Labour).price as int,
            ) <= i32::MAX,
            schedule.wf(),
            schedule.covers(old(population).total_labour()),
            old(self).has_room(old(market), schedule, Good::Food),
            old(self).has_room(old(market), schedule, Good::Clothes),
        ensures
            ({
                let price = old(market).at(Good::Labour).price as int;
                let orders = old(self).labour_orders(price);
                let labour = old(population).total_labour();
                &&& final(self)@ == operated(old(self)@, price, labour, *schedule)
                &&& exists|starts: Seq<int>|
                    final(population)@ == #[trigger] employed(
                        old(population)@,
                        old(self)@,
                        price,
                        starts,
                        old(self)@.len() as int,
                    )
                &&& final(self).wf()
                &&& final(market).is_open()
                &&& final(market).at(Good::Labour) == old(market).at(Good::Labour).asked(orders)
                &&& forall|good: Good|
                    good != Good::Labour ==> #[trigger] final(market).at(good) == old(market).at(
                        good,
                    ).offered(final(self).stock(good))
                &&& final(population)@.len() == old(population)@.len()
                &&& final(population).wf()
                &&& final(population).total_labour() == labour - min(labour, orders)
                &&& forall|i: int|
                    0 <= i < old(population)@.len() ==> (#[trigger] final(population)@[i]).health
                        == old(population)@[i].health
                &&& final(population).total_money() == old(population).total_money() + min(
                    labour,
                    orders,
                ) * price
                &&& final(self).total_money() + final(population).total_money()
                    == old(self).total_money() + old(population).total_money()
            }),
    {
        let n = self.factories.len();
        let ghost start = self.factories@;
        let ghost price = market.at(Good::Labour).price as int;
        let ghost labour = population.total_labour();
        let ghost orders = labour_order_of(price);
        let ghost done = operated(start, price, labour, *schedule);
        let ghost opening = *market;
        let ghost wealth = population.total_money();
        let ghost peak = schedule.peak();
        let ghost crowd = population@;
        let ghost mut starts: Seq<int> = Seq::empty();
        proof {
            assert(market.at(Good::Labour).is_open());
            assert(market.at(Good::Food).is_open());
            assert(market.at(Good::Clothes).is_open());
            lemma_labour_orders_non_negative(start, price);
            lemma_stock_non_negative(self, Good::Food);
            lemma_stock_non_negative(self, Good::Clothes);
            lemma_money_non_negative(population@);
            lemma_tally_bounds(population@, labour_of());
            assert(0 * price == 0);
            assert(peak * 0 == 0);
            assert(start.take(0).len() == 0);
            assert(done.take(0).len() == 0);
        }
        let mut i: usize = 0;
        while i < n
            invariant
                n == start.len(),
                done == operated(start, price, labour, *schedule),
                done.len() == n,
                self.factories@.len() == n,
                i <= n,
                n > 0 ==> population@.len() > 0,
                population@.len() == old(population)@.len(),
                population.wf(),
                market.is_open(),
                price == opening.at(Good::Labour).price,
                price >= 1,
                labour >= 0,
                peak == schedule.peak(),
                schedule.wf(),
                schedule.covers(labour),
                orders == labour_order_of(price),
                non_negative(start, orders),
                non_negative(start, stock_of(Good::Food)),
                non_negative(start, stock_of(Good::Clothes)),
                forall|j: int| 0 <= j < n ==> (#[trigger] start[j]).fit(),
                forall|j: int| 0 <= j < n ==> (#[trigger] self.factories@[j]).wf(),
                forall|j: int|
                    0 <= j < n ==> #[trigger] self.factories@[j] == if j < i {
                        done[j]
                    } else {
                        start[j]
                    },
                opening.at(Good::Labour).demand + tally(start, orders) <= i32::MAX,
                forall|good: Good|
                    good != Good::Labour ==> (#[trigger] opening.at(good)).supply + tally(
                        start,
                        stock_of(good),
                    ) + peak * n <= i32::MAX,
                forall|good: Good| (#[trigger] opening.at(good)).is_open(),
                market.at(Good::Labour) == opening.at(Good::Labour).asked(
                    scanned(start, orders, 0, i as int),
                ),
                forall|good: Good|
                    good != Good::Labour ==> #[trigger] market.at(good) == opening.at(
                        good,
                    ).offered(tally(done.take(i as int), stock_of(good))),
                forall|good: Good|
                    good != Good::Labour ==> 0 <= #[trigger] tally(
                        done.take(i as int),
                        stock_of(good),
                    ) <= tally(start.take(i as int), stock_of(good)) + peak * i,
                population.total_labour() == labour - min(
                    labour,
                    scanned(start, orders, 0, i as int),
                ),
                population.total_money() == wealth + min(
                    labour,
                    scanned(start, orders, 0, i as int),
                ) * price,
                tally(self.factories@, funds_of()) + population.total_money() == tally(
                    start,
                    funds_of(),
                ) + wealth,
                tally(start, funds_of()) + wealth <= i32::MAX,
                crowd == old(population)@,
                starts.len() == i,
                forall|j: int|
                    0 <= j < crowd.len() ==> (#[trigger] population@[j]).health == crowd[j].health,
                population@ == employed(crowd, start, price, starts, i as int),
            decreases n - i,
        {
            let ghost prior = self.factories@;
            let ghost seen = scanned(start, orders, 0, i as int);
            let ghost before = *market;
            let mut factory = self.factories[i];
            proof {
                lemma_circle(n as int, 0);
                assert(visited(n as int, 0, i as int) == i);
                assert(turn(n as int, 0, i as int) == i);
                assert(factory == start[i as int]);
                assert(start[i as int].fit());
                lemma_funds_non_negative(prior);
                lemma_tally_bounds(prior, funds_of());
                assert(funds_of()(prior[i as int]) <= tally(prior, funds_of()));
                lemma_money_non_negative(population@);
                lemma_tally_bounds(population@, money_of());
                lemma_scanned_all(start, orders, 0);
                lemma_scanned_grows(start, orders, 0, i as int + 1, n as int);
                lemma_scanned_grows(start, orders, 0, 0, i as int);
                assert(orders(start[i as int]) >= 0);
                let good = factory.good;
                assert(good != Good::Labour);
                lemma_tally_take(start, stock_of(good), i as int);
                lemma_tally_take_le(start, stock_of(good), i as int + 1);
                lemma_tally_take_le(start, stock_of(good), i as int);
                assert(stock_of(good)(start[i as int]) == factory.inventory);
                assert(peak * (i + 1) == peak * i + peak) by (nonlinear_arith);
                assert(peak * (i + 1) <= peak * n) by (nonlinear_arith)
                    requires
                        i + 1 <= n,
                        0 <= peak,
                ;
                assert(0 <= peak * i) by (nonlinear_arith)
                    requires
                        0 <= peak,
                        0 <= i,
                ;
                assert(opening.at(good).is_open());
                assert(market.at(good) == opening.at(good).offered(
                    tally(done.take(i as int), stock_of(good)),
                ));
            }
            let ghost queue = population@;
            let ghost earlier = starts;
            factory.tick(population, market, schedule);
            self.factories.set(i, factory);
            i += 1;
            proof {
                let wanted = start[i - 1].labour_order(price);
                let offset = choose|offset: int|
                    0 <= offset < queue.len() && population@ == #[trigger] hired_from(
                        queue,
                        offset,
                        wanted,
                        price,
                    );
                starts = earlier.push(offset);
                let count = crowd.len() as int;
                assert(offset % count == offset) by (nonlinear_arith)
                    requires
                        0 <= offset < count,
                ;
                lemma_employed_starts(crowd, start, price, earlier, starts, i - 1);
                assert(starts[i - 1] == offset);
                assert(population@ == employed(crowd, start, price, starts, i as int));
            }
            proof {
                let k = i - 1;
                let order = start[k].labour_order(price);
                let got = share(start, orders, 0, labour, k);
                assert(got == min(order, labour - min(labour, seen)));
                assert(min(labour, seen + order) == min(labour, seen) + got);
                let money = start[k].money as int;
                assert(0 <= got * price <= money) by (nonlinear_arith)
                    requires
                        0 <= got <= order,
                        order == (money * LABOUR_BUDGET_PERCENT / 100) / price,
                        0 <= money,
                        1 <= price,
                ;
                assert((min(labour, seen) + got) * price == min(labour, seen) * price + got
                    * price) by (nonlinear_arith);
                assert(factory == done[k]);
                lemma_tally_update(prior, funds_of(), k, factory);
                assert forall|good: Good| good != Good::Labour implies #[trigger] market.at(good)
                    == opening.at(good).offered(tally(done.take(i as int), stock_of(good)))
                    && 0 <= tally(done.take(i as int), stock_of(good)) <= tally(
                    start.take(i as int),
                    stock_of(good),
                ) + peak * i by {
                    lemma_tally_take(done, stock_of(good), k);
                    lemma_tally_take(start, stock_of(good), k);
                    assert(before.at(good) == opening.at(good).offered(
                        tally(done.take(k), stock_of(good)),
                    ));
                    assert(0 <= tally(done.take(k), stock_of(good)) <= tally(
                        start.take(k),
                        stock_of(good),
                    ) + peak * k);
                    assert(market.at(good) == before.at(good).offered(factory.offer(good)));
                    assert(stock_of(good)(done[k]) == factory.offer(good));
                    assert(stock_of(good)(start[k]) >= 0);
                    assert(start[k].wf());
                    if good == factory.good {
                        assert(0 <= factory.offer(good) <= start[k].inventory + peak);
                        assert(stock_of(good)(start[k]) == start[k].inventory);
                        lemma_tally_take_le(start, stock_of(good), i as int);
                    } else {
                        assert(factory.offer(good) == 0);
                    }
                    assert(opening.at(good).is_open());
                }
                assert forall|good: Good| good != Good::Labour implies 0 <= #[trigger] tally(
                    done.take(i as int),
                    stock_of(good),
                ) <= tally(start.take(i as int), stock_of(good)) + peak * i by {
                    assert(market.at(good) == opening.at(good).offered(
                        tally(done.take(i as int), stock_of(good)),
                    ));
                }
                assert forall|good: Good| (#[trigger] market.at(good)).is_open() by {
                    assert(opening.at(good).is_open());
                    assert(before.at(good).is_open());
                    if good != Good::Labour {
                        assert(0 <= tally(done.take(i as int), stock_of(good)));
                    }
                }
            }
        }
        proof {
            if n > 0 {
                lemma_scanned_all(start, orders, 0);
            }
            assert(self.factories@ =~= done);
            assert(done.take(n as int) =~= done);
        }
    }

    /// A day of all factories: they are put into an order drawn by chance,
    /// work in that order (see [`Industry::operate`]), and are then taken
    /// through the pass that ends the day (see [`Industry::turnover`]).
    /// What comes of it is [`factories_day`].
    ///
    /// Where there are factories there must be a consumer, prices must be at
    /// least 1, the schedule must say what any labour on offer makes, and
    /// there must be room in 32 bits: for all the money of factories and
    /// consumers together, and on the markets for what is ordered and for
    /// what the factories may offer.
    pub fn tick(
        &mut self,
        population: &mut Population,
        market: &mut MarketNetwork,
        schedule: &Schedule,
    )
        requires
            old(self).fit(),
            old(population).wf(),
            old(market).is_open(),
            old(self)@.len() > 0 ==> old(population)@.len() > 0,
            old(self).total_money() + old(population).total_money() <= i32::MAX,
            old(market).at(Good::Labour).demand + old(self).labour_orders(
                old(market).at(Good::Labour).price as int,
            ) <= i32::MAX,
            schedule.wf(),
            schedule.covers(old(population).total_labour()),
            old(self).has_room(old(market), schedule, Good::Food),
            old(self).has_room(old(market), schedule, Good::Clothes),
        ensures
            factories_day(
                *old(self),
                *old(population),
                *old(market),
                *schedule,
                *final(self),
                *final(population),
                *final(market),
            ),
    {
        let ghost before = self.factories@;
        let ghost price = market.at(Good::Labour).price as int;
        let ghost labour = population.total_labour();
        shuffle(&mut self.factories);
        let ghost order = self.factories@;
        proof {
            lemma_tally_permutation(order, before, funds_of());
            lemma_tally_permutation(order, before, labour_order_of(price));
            lemma_tally_permutation(order, before, stock_of(Good::Food));
            lemma_tally_permutation(order, before, stock_of(Good::Clothes));
            assert forall|i: int| 0 <= i < before.len() implies (#[trigger] before[i]).fit() by {
                assert(old(self)@[i].fit());
            }
            lemma_same_items(before, order, |factory: Factory| factory.fit());
        }
        self.operate(population, market, schedule);
        let ghost crowd = population@;
        let ghost done = self.factories@;
        let ghost starts = choose|starts: Seq<int>|
            population@ == #[trigger] employed(
                old(population)@,
                order,
                price,
                starts,
                order.len() as int,
            );
        proof {
            lemma_money_non_negative(crowd);
            lemma_tally_bounds(crowd, money_of());
        }
        self.turnover(population);
        proof {
            let heirs = choose|heirs: Seq<int>|
                (self@, population@) == #[trigger] reorganised(done, crowd, heirs);
            assert((self@, population@) == reorganised(
                operated(order, price, labour, *schedule),
                employed(old(population)@, order, price, starts, old(self)@.len() as int),
                heirs,
            ));
        }
    }

    /// The pass that ends the factories' day. Every factory is looked at
    /// once: those that have long been idle are closed, what each of them
    /// owned goes to a consumer drawn by chance, and then those that stay and
    /// can pay for it found another. See [`reorganised`].
    pub fn turnover(&mut self, population: &mut Population)
        requires
            old(self).wf(),
            old(population).wf(),
            old(self).total_money() + old(population).total_money() <= i32::MAX,
        ensures
            exists|heirs: Seq<int>|
                (final(self)@, final(population)@) == #[trigger] reorganised(
                    old(self)@,
                    old(population)@,
                    heirs,
                ),
            forall|i: int|
                0 <= i < final(self)@.len() ==> (#[trigger] final(self)@[i]).days_closed
                    < MAX_DAYS_CLOSED,
            final(self).fit(),
            final(population).wf(),
            final(self)@.len() <= 2 * old(self)@.len(),
            final(population)@.len() == old(population)@.len(),
            old(population)@.len() > 0
                ==> final(self).total_money() + final(population).total_money()
                == old(self).total_money() + old(population).total_money(),
            final(self).total_money() + final(population).total_money()
                <= old(self).total_money() + old(population).total_money(),
            old(population)@.len() == 0 ==> final(population)@ == old(population)@,
            final(population).total_labour() == old(population).total_labour(),
            forall|i: int|
                0 <= i < old(population)@.len() ==> (#[trigger] final(population)@[i]).health
                    == old(population)@[i].health,
    {
        let ghost start = self.factories@;
        let n = self.factories.len();
        let mut kept: Vec<Factory> = Vec::new();
        let mut left: Vec<i32> = Vec::new();
        let mut idx: usize = 0;
        proof {
            lemma_funds_non_negative(start);
            lemma_tally_bounds(start, funds_of());
            lemma_money_non_negative(population@);
            lemma_tally_bounds(population@, money_of());
        }
        while idx < n
            invariant
                n == start.len(),
                self.factories@ == start,
                idx <= n,
                forall|i: int| 0 <= i < start.len() ==> (#[trigger] start[i]).wf(),
                kept@ == lasting(start.take(idx as int)),
                left@ == closures(start.take(idx as int)),
                kept@.len() <= idx,
                forall|i: int|
                    0 <= i < kept@.len() ==> (#[trigger] kept@[i]).wf() && kept@[i].days_closed
                        < MAX_DAYS_CLOSED,
                forall|j: int| 0 <= j < left@.len() ==> #[trigger] left@[j] >= 0,
                tally(kept@, funds_of()) + sum(left@) == tally(start.take(idx as int), funds_of()),
            decreases n - idx,
        {
            let factory = self.factories[idx];
            proof {
                assert(start.take(idx + 1).drop_last() =~= start.take(idx as int));
                assert(start.take(idx + 1).last() == factory);
                assert(start[idx as int].wf());
                lemma_tally_take(start, funds_of(), idx as int);
                lemma_tally_push(kept@, funds_of(), factory);
                lemma_tally_push(left@, amount_of(), factory.money);
            }
            if factory.days_closed >= MAX_DAYS_CLOSED {
                left.push(factory.money);
            } else {
                kept.push(factory);
            }
            idx += 1;
        }
        proof {
            assert(start.take(n as int) =~= start);
            lemma_funds_non_negative(kept@);
            lemma_tally_bounds(kept@, funds_of());
        }
        self.factories = kept;
        population.hand_out(&left);
        let ghost base = self.factories@;
        let m = self.factories.len();
        let ghost total = tally(base, funds_of());
        let mut k: usize = 0;
        proof {
            assert(base.take(0).len() == 0);
        }
        while k < m
            invariant
                m == base.len(),
                k <= m,
                self.factories@.len() == m + branches(base.take(k as int)).len(),
                branches(base.take(k as int)).len() <= k,
                forall|i: int|
                    0 <= i < m ==> #[trigger] self.factories@[i] == if i < k && base[i].money
                        >= FACTORY_COST * 2 {
                        base[i].founder()
                    } else {
                        base[i]
                    },
                forall|i: int|
                    m <= i < self.factories@.len() ==> #[trigger] self.factories@[i] == branches(
                        base.take(k as int),
                    )[i - m],
                forall|i: int|
                    0 <= i < base.len() ==> (#[trigger] base[i]).wf() && base[i].days_closed
                        < MAX_DAYS_CLOSED,
                forall|i: int|
                    0 <= i < self.factories@.len() ==> (#[trigger] self.factories@[i]).wf()
                        && self.factories@[i].days_closed < MAX_DAYS_CLOSED,
                tally(self.factories@, funds_of()) == total,
            decreases m - k,
        {
            let ghost prior = self.factories@;
            proof {
                assert(base.take(k + 1).drop_last() =~= base.take(k as int));
                assert(base.take(k + 1).last() == base[k as int]);
                assert(prior[k as int] == base[k as int]);
                assert(base[k as int].wf());
            }
            if self.factories[k].money >= FACTORY_COST * 2 {
                self.build(k);
                proof {
                    let built = branches(base.take(k + 1));
                    assert(built == branches(base.take(k as int)).push(base[k as int].branch()));
                    assert forall|i: int|
                        m <= i < self.factories@.len() implies #[trigger] self.factories@[i]
                        == built[i - m] by {
                        if i < prior.len() {
                            assert(self.factories@[i] == prior[i]);
                        }
                    }
                    assert forall|i: int| 0 <= i < self.factories@.len() implies (
                    #[trigger] self.factories@[i]).wf() && self.factories@[i].days_closed
                        < MAX_DAYS_CLOSED by {
                        if i < prior.len() && i != k {
                            assert(self.factories@[i] == prior[i]);
                            assert(prior[i].wf());
                        }
                    }
                }
            } else {
                proof {
                    assert(branches(base.take(k + 1)) == branches(base.take(k as int)));
                }
            }
            k += 1;
        }
        proof {
            assert(base.take(m as int) =~= base);
            assert(self.factories@ =~= founders(base) + branches(base));
            let heirs = choose|heirs: Seq<int>|
                population@ == #[trigger] endowed(old(population)@, left@, heirs);
            assert((self@, population@) == reorganised(start, old(population)@, heirs));
            lemma_funds_non_negative(self.factories@);
            lemma_tally_bounds(self.factories@, funds_of());
            lemma_money_non_negative(population@);
            lemma_tally_bounds(population@, money_of());
            lemma_tally_bounds(left@, amount_of());
        }
    }

    /// Closes the factory at position `idx`; the last factory takes its
    /// place. What it owned is handed out.
    pub fn liquidate(&mut self, idx: usize) -> (inheritance: Inheritance)
        requires
            idx < old(self)@.len(),
        ensures
            inheritance.0 == old(self)@[idx as int].money,
            final(self)@ == old(self)@.update(idx as int, old(self)@.last()).drop_last(),
            final(self).total_money() + inheritance.0 == old(self).total_money(),
    {
        proof {
            lemma_tally_swap_remove(self.factories@, funds_of(), idx as int);
        }
        Inheritance(self.factories.swap_remove(idx).money)
    }

    /// The factory at position `parent_idx` founds another for the same
    /// good, which is added at the end. The founder pays for it.
    pub fn build(&mut self, parent_idx: usize)
        requires
            parent_idx < old(self)@.len(),
            old(self)@[parent_idx as int].money >= FACTORY_COST,
        ensures
            final(self)@ == old(self)@.update(
                parent_idx as int,
                old(self)@[parent_idx as int].founder(),
            ).push(old(self)@[parent_idx as int].branch()),
            final(self).total_money() == old(self).total_money(),
    {
        proof {
            let founder = self.factories@[parent_idx as int].founder();
            lemma_tally_update(self.factories@, funds_of(), parent_idx as int, founder);
            lemma_tally_push(
                self.factories@.update(parent_idx as int, founder),
                funds_of(),
                self.factories@[parent_idx as int].branch(),
            );
        }
        let mut parent = self.factories[parent_idx];
        parent.money = parent.money - FACTORY_COST;
        let good = parent.good;
        self.factories.set(parent_idx, parent);
        self.factories.push(Factory { good, money: FACTORY_COST, inventory: 0, days_closed: 0 });
    }

    /// Fills an order for `target_amount` units of `good` at `market_price`
    /// each, by a circle that starts at `offset`. Factories that make
    /// another good are passed by.
    pub fn buy_from(
        &mut self,
        offset: usize,
        target_amount: i32,
        good: Good,
        market_price: i32,
    ) -> (purchase: Purchase)
        requires
            offset < old(self)@.len(),
            old(self).can_sell(good, target_amount as int, market_price as int),
        ensures
            final(self)@ == sold_from(
                old(self)@,
                offset as int,
                good,
                target_amount as int,
                market_price as int,
            ),
            purchase.amount == filled(old(self)@, stock_of(good), target_amount as int),
            purchase.cost == purchase.amount * market_price,
            final(self)@.len() == old(self)@.len(),
            final(self).wf(),
            final(self).total_money() == old(self).total_money() + purchase.cost,
            final(self).stock(good) == old(self).stock(good) - purchase.amount,
            forall|other: Good|
                other != good ==> #[trigger] final(self).stock(other) == old(self).stock(other),
            traded(old(self)@, final(self)@),
    {
        let n = self.factories.len();
        let ghost before = self.factories@;
        let ghost target = target_amount as int;
        let ghost price = market_price as int;
        let ghost at = offset as int;
        let mut bought: i32 = 0;
        let mut step: usize = 0;
        proof {
            assert(non_negative(before, stock_of(good))) by {
                assert forall|i: int| 0 <= i < before.len() implies stock_of(good)(
                    #[trigger] before[i],
                ) >= 0 by {
                    assert(before[i].wf());
                }
            }
            assert(0 * price == 0);
        }
        while step < n && bought < target_amount
            invariant
                n == before.len(),
                self.factories@.len() == n,
                at == offset,
                target == target_amount,
                price == market_price,
                offset < n,
                step <= n,
                0 <= target,
                0 <= price,
                non_negative(before, stock_of(good)),
                forall|i: int| 0 <= i < n ==> (#[trigger] before[i]).wf(),
                forall|i: int|
                    0 <= i < n ==> (#[trigger] before[i]).money + min(
                        before[i].offer(good),
                        target,
                    ) * price <= i32::MAX,
                bought == min(target, scanned(before, stock_of(good), at, step as int)),
                forall|i: int|
                    0 <= i < n ==> #[trigger] self.factories@[i] == if turn(n as int, at, i)
                        < step {
                        before[i].sold(share(before, stock_of(good), at, target, i), price)
                    } else {
                        before[i]
                    },
                forall|i: int| 0 <= i < n ==> (#[trigger] self.factories@[i]).wf(),
                tally(self.factories@, funds_of()) == tally(before, funds_of()) + bought * price,
                tally(self.factories@, stock_of(good)) == tally(before, stock_of(good)) - bought,
                forall|other: Good|
                    other != good ==> tally(self.factories@, stock_of(other)) == tally(
                        before,
                        stock_of(other),
                    ),
            decreases n - step,
        {
            let idx = if step < n - offset {
                offset + step
            } else {
                step - (n - offset)
            };
            proof {
                lemma_circle(n as int, at);
                assert(idx == visited(n as int, at, step as int));
                assert(turn(n as int, at, idx as int) == step);
                lemma_scanned_grows(before, stock_of(good), at, 0, step as int);
                assert(self.factories@[idx as int] == before[idx as int]);
                assert(before[idx as int].wf());
            }
            let ghost prior = self.factories@;
            let mut factory = self.factories[idx];
            let mut amount: i32 = 0;
            if factory.good == good {
                let left = target_amount - bought;
                amount = if factory.inventory < left {
                    factory.inventory
                } else {
                    left
                };
                proof {
                    assert(0 <= amount <= min(factory.offer(good), target));
                    assert(0 <= amount * price <= min(factory.offer(good), target) * price)
                        by (nonlinear_arith)
                        requires
                            0 <= amount <= min(factory.offer(good), target),
                            0 <= price,
                    ;
                }
                factory.money = factory.money + amount * market_price;
                factory.inventory = factory.inventory - amount;
                self.factories.set(idx, factory);
                bought = bought + amount;
            }
            step += 1;
            proof {
                assert(amount == share(before, stock_of(good), at, target, idx as int));
                assert((bought - amount + amount) * price == (bought - amount) * price + amount
                    * price) by (nonlinear_arith);
                assert(0 * price == 0);
                assert(factory == before[idx as int].sold(amount as int, price));
                assert(self.factories@ =~= prior.update(idx as int, factory));
                lemma_tally_update(prior, funds_of(), idx as int, factory);
                lemma_tally_update(prior, stock_of(good), idx as int, factory);
                assert forall|other: Good| other != good implies tally(
                    self.factories@,
                    stock_of(other),
                ) == tally(before, stock_of(other)) by {
                    lemma_tally_update(prior, stock_of(other), idx as int, factory);
                }
                assert forall|i: int| 0 <= i < n implies #[trigger] self.factories@[i]
                    == if turn(n as int, at, i) < step {
                    before[i].sold(share(before, stock_of(good), at, target, i), price)
                } else {
                    before[i]
                } by {
                    if i != idx {
                        assert(self.factories@[i] == prior[i]);
                        assert(turn(n as int, at, i) != step - 1);
                    }
                }
            }
        }
        proof {
            lemma_circle(n as int, at);
            lemma_scanned_all(before, stock_of(good), at);
            lemma_scanned_grows(before, stock_of(good), at, step as int, n as int);
            assert forall|i: int| 0 <= i < n implies #[trigger] self.factories@[i]
                == before[i].sold(share(before, stock_of(good), at, target, i), price) by {
                let t = turn(n as int, at, i);
                if t >= step {
                    lemma_scanned_grows(before, stock_of(good), at, step as int, t);
                    assert(share(before, stock_of(good), at, target, i) == 0);
                    assert(before[i].sold(0, price) == before[i]);
                }
            }
            assert(self.factories@ =~= sold_from(before, at, good, target, price));
            assert forall|i: int| 0 <= i < n implies {
                &&& (#[trigger] self.factories@[i]).good == before[i].good
                &&& self.factories@[i].days_closed == before[i].days_closed
                &&& self.factories@[i].inventory <= before[i].inventory
                &&& self.factories@[i].money >= before[i].money
            } by {
                lemma_share_bounds(before, stock_of(good), at, target, i);
                let part = share(before, stock_of(good), at, target, i);
                assert(0 <= part * price) by (nonlinear_arith)
                    requires
                        0 <= part,
                        0 <= price,
                ;
                assert(before[i].wf());
                assert(part <= min(before[i].offer(good), target));
                assert(part * price <= min(before[i].offer(good), target) * price)
                    by (nonlinear_arith)
                    requires
                        part <= min(before[i].offer(good), target),
                        0 <= price,
                ;
            }
        }
        Purchase { amount: bought, cost: bought * market_price }
    }

    /// Fills an order for `target_amount` units of `good` at `market_price`
    /// each, by a circle that starts at a position drawn by chance. What the
    /// order gets does not depend on the draw; which factories sell does.
    pub fn buy(&mut self, target_amount: i32, good: Good, market_price: i32) -> (purchase: Purchase)
        requires
            old(self)@.len() > 0,
            old(self).can_sell(good, target_amount as int, market_price as int),
        ensures
            exists|offset: int|
                0 <= offset < old(self)@.len() && final(self)@ == #[trigger] sold_from(
                    old(self)@,
                    offset,
                    good,
                    target_amount as int,
                    market_price as int,
                ),
            purchase.amount == filled(old(self)@, stock_of(good), target_amount as int),
            purchase.cost == purchase.amount * market_price,
            final(self)@.len() == old(self)@.len(),
            final(self).wf(),
            final(self).total_money() == old(self).total_money() + purchase.cost,
            final(self).stock(good) == old(self).stock(good) - purchase.amount,
            forall|other: Good|
                other != good ==> #[trigger] final(self).stock(other) == old(self).stock(other),
            traded(old(self)@, final(self)@),
    {
        let offset = random_index(self.factories.len());
        self.buy_from(offset, target_amount, good, market_price)
    }

    /// The money of all factories together, however much it is.
    pub fn wealth(&self) -> (total: i128)
        ensures
            total == self.total_money(),
    {
        let n = self.factories.len();
        let mut sum: i128 = 0;
        let mut i: usize = 0;
        while i < n
            invariant
                n == self.factories@.len(),
                i <= n,
                sum == tally(self.factories@.take(i as int), funds_of()),
                -0x8000_0000 * i <= sum <= 0x8000_0000 * i,
            decreases n - i,
        {
            proof {
                lemma_tally_take(self.factories@, funds_of(), i as int);
            }
            sum = sum + self.factories[i].money as i128;
            i += 1;
        }
        proof {
            assert(self.factories@.take(n as int) =~= self.factories@);
        }
        sum
    }

    /// Whether every factory is well-formed.
    pub fn is_wf(&self) -> (ok: bool)
        ensures
            ok == self.wf(),
    {
        let n = self.factories.len();
        let mut i: usize = 0;
        while i < n
            invariant
                n == self.factories@.len(),
                i <= n,
                forall|j: int| 0 <= j < i ==> (#[trigger] self.factories@[j]).wf(),
            decreases n - i,
        {
            let factory = self.factories[i];
            if factory.good == Good::Labour || factory.money < 0 || factory.inventory < 0
                || factory.days_closed < 0 {
                assert(!self@[i as int].wf());
                return false;
            }
            i += 1;
        }
        true
    }

    /// Whether every factory can go through a day.
    pub fn is_fit(&self) -> (ok: bool)
        ensures
            ok == self.fit(),
    {
        let n = self.factories.len();
        let mut i: usize = 0;
        while i < n
            invariant
                n == self.factories@.len(),
                i <= n,
                forall|j: int| 0 <= j < i ==> (#[trigger] self.factories@[j]).fit(),
            decreases n - i,
        {
            let factory = self.factories[i];
            if factory.good == Good::Labour || factory.money < 0 || factory.inventory < 0
                || factory.days_closed < 0 || factory.days_closed == i32::MAX {
                assert(!self@[i as int].fit());
                return false;
            }
            i += 1;
        }
        true
    }

    /// What all factories together have on offer of `good`.
    pub fn inventory(&self, good: Good) -> (total: i128)
        ensures
            total == self.stock(good),
    {
        let n = self.factories.len();
        let mut sum: i128 = 0;
        let mut i: usize = 0;
        while i < n
            invariant
                n == self.factories@.len(),
                i <= n,
                sum == tally(self.factories@.take(i as int), stock_of(good)),
                -0x8000_0000 * i <= sum <= 0x8000_0000 * i,
            decreases n - i,
        {
            proof {
                lemma_tally_take(self.factories@, stock_of(good), i as int);
            }
            if self.factories[i].good == good {
                sum = sum + self.factories[i].inventory as i128;
            }
            i += 1;
        }
        proof {
            assert(self.factories@.take(n as int) =~= self.factories@);
        }
        sum
    }

    /// The money of all factories together.
    pub fn money_supply(&self) -> (total: i32)
        requires
            i32::MIN <= self.total_money() <= i32::MAX,
        ensures
            total == self.total_money(),
    {
        self.wealth() as i32
    }

    /// How many factories make `good`.
    pub fn count_factories(&self, good: Good) -> (count: usize)
        ensures
            count == tally(self@, makes(good)),
    {
        let n = self.factories.len();
        let mut count: usize = 0;
        let mut i: usize = 0;
        while i < n
            invariant
                n == self.factories@.len(),
                i <= n,
                count == tally(self.factories@.take(i as int), makes(good)),
                count <= i,
            decreases n - i,
        {
            proof {
                lemma_tally_take(self.factories@, makes(good), i as int);
            }
            if self.factories[i].good == good {
                count += 1;
            }
            i += 1;
        }
        proof {
            assert(self.factories@.take(n as int) =~= self.factories@);
        }
        count
    }
}

/// What an order for `target` units of `good` at `price` each gets from the
/// factories.
pub open spec fn bought(factories: Seq<Factory>, good: Good, target: int, price: int) -> Purchase {
    Purchase {
        amount: filled(factories, stock_of(good), target) as i32,
        cost: (filled(factories, stock_of(good), target) * price) as i32,
    }
}

/// No factory owns more than all factories together, and an order that
/// costs no more than `budget` can be settled where the sellers' money and
/// the budget together fit in 32 bits.
pub proof fn lemma_can_sell(industry: &Industry, good: Good, target: int, price: int, budget: int)
    requires
        industry.wf(),
        0 <= target,
        0 <= price,
        target * price <= budget,
        industry.total_money() + budget <= i32::MAX,
    ensures
        industry.can_sell(good, target, price),
        0 <= filled(industry@, stock_of(good), target) <= target,
        0 <= filled(industry@, stock_of(good), target) * price <= budget,
        0 <= industry.total_money(),
{
    let s = industry@;
    assert(non_negative(s, funds_of())) by {
        assert forall|i: int| 0 <= i < s.len() implies funds_of()(#[trigger] s[i]) >= 0 by {
            assert(s[i].wf());
        }
    }
    assert(non_negative(s, stock_of(good))) by {
        assert forall|i: int| 0 <= i < s.len() implies stock_of(good)(#[trigger] s[i]) >= 0 by {
            assert(s[i].wf());
        }
    }
    lemma_tally_bounds(s, funds_of());
    lemma_tally_bounds(s, stock_of(good));
    let got = filled(s, stock_of(good), target);
    assert(0 <= got * price <= target * price) by (nonlinear_arith)
        requires
            0 <= got <= target,
            0 <= price,
    ;
    assert forall|i: int| 0 <= i < s.len() implies (#[trigger] s[i]).money + min(
        s[i].offer(good),
        target,
    ) * price <= i32::MAX by {
        let part = min(s[i].offer(good), target);
        assert(s[i].wf());
        assert(funds_of()(s[i]) <= tally(s, funds_of()));
        assert(0 <= part * price <= target * price) by (nonlinear_arith)
            requires
                0 <= part <= target,
                0 <= price,
        ;
    }
}

/// Well-formed factories have no less than nothing on offer, and own no less
/// than nothing.
pub proof fn lemma_stock_non_negative(industry: &Industry, good: Good)
    requires
        industry.wf(),
    ensures
        non_negative(industry@, stock_of(good)),
        non_negative(industry@, funds_of()),
        industry.stock(good) >= 0,
        industry.total_money() >= 0,
{
    let s = industry@;
    assert forall|i: int| 0 <= i < s.len() implies stock_of(good)(#[trigger] s[i]) >= 0 by {
        assert(s[i].wf());
    }
    assert forall|i: int| 0 <= i < s.len() implies funds_of()(#[trigger] s[i]) >= 0 by {
        assert(s[i].wf());
    }
    lemma_tally_bounds(s, stock_of(good));
    lemma_tally_bounds(s, funds_of());
}

/// No well-formed factory orders less than nothing.
pub proof fn lemma_labour_orders_non_negative(factories: Seq<Factory>, price: int)
    requires
        forall|i: int| 0 <= i < factories.len() ==> (#[trigger] factories[i]).wf(),
        1 <= price,
    ensures
        non_negative(factories, labour_order_of(price)),
{
    assert forall|i: int| 0 <= i < factories.len() implies labour_order_of(price)(
        #[trigger] factories[i],
    ) >= 0 by {
        let money = factories[i].money as int;
        assert(factories[i].wf());
        assert(0 <= (money * LABOUR_BUDGET_PERCENT / 100) / price) by (nonlinear_arith)
            requires
                0 <= money,
                1 <= price,
        ;
    }
}

/// Where every factory is well-formed, no money is negative.
pub proof fn lemma_funds_non_negative(factories: Seq<Factory>)
    requires
        forall|i: int| 0 <= i < factories.len() ==> (#[trigger] factories[i]).wf(),
    ensures
        non_negative(factories, funds_of()),
{
    assert forall|i: int| 0 <= i < factories.len() implies funds_of()(#[trigger] factories[i])
        >= 0 by {
        assert(factories[i].wf());
    }
}

} // verus!
