//! The economy as a whole: the markets, the consumers and the factories,
//! taken through one trading day after another.

use vstd::prelude::*;
use crate::good::{Good, NUM_OF_GOODS};
use crate::industry::{
    copies, factories_day, funds_of, labour_order_of, lemma_funds_non_negative,
    lemma_stock_non_negative, stock_of, Factory, Industry, IndustryBuilder,
    LABOUR_BUDGET_PERCENT,
};
use crate::market::{untraded, Adjustment, MarketNetwork};
use crate::population::{
    consumers_day, lemma_money_non_negative, money_of, order_of, Pop, Population,
    CLOTHES_BUDGET_PERCENT, FOOD_BUDGET_PERCENT, LABOUR_OUTPUT,
};
use crate::production::Schedule;
use crate::tally::{
    lemma_tally_bounds, lemma_tally_constant, lemma_tally_concat, lemma_tally_le, tally,
};

verus! {

/// How many consumers a new world has.
pub const INITIAL_POPS: usize = 10;

/// How many factories a new world has for each commodity.
pub const INITIAL_FACTORIES: usize = 10;

/// The money with which every consumer and factory of a new world sets out.
pub const INITIAL_MONEY: i32 = 10_000;

/// The health with which every consumer of a new world sets out.
pub const INITIAL_HEALTH: i32 = 10;

/// The most consumers whose labour for a day can be counted in 32 bits.
pub const MAX_POPS: usize = 214_748_364;

/// The economy.
pub struct World {
    market: MarketNetwork,
    population: Population,
    industry: Industry,
    day: i32,
}

impl World {
    /// The markets.
    pub closed spec fn markets(&self) -> MarketNetwork {
        self.market
    }

    /// The consumers.
    pub closed spec fn consumers(&self) -> Population {
        self.population
    }

    /// The factories.
    pub closed spec fn producers(&self) -> Industry {
        self.industry
    }

    /// How many days have been closed.
    pub closed spec fn days(&self) -> int {
        self.day as int
    }

    /// All the money there is.
    pub open spec fn total_money(&self) -> int {
        self.consumers().total_money() + self.producers().total_money()
    }

    /// Consumers and factories are well-formed, and all the money there is
    /// can be counted in 32 bits.
    pub open spec fn wf(&self) -> bool {
        &&& self.consumers().wf()
        &&& self.producers().wf()
        &&& self.total_money() <= i32::MAX
    }

    /// A day can be run with `schedule`: everyone can go through it, nobody
    /// is left without anyone to buy from, the schedule says what any labour
    /// that can be hired makes, and the markets have room for all that can
    /// be offered.
    pub open spec fn ready(&self, schedule: &Schedule) -> bool {
        &&& self.consumers().fit()
        &&& self.producers().fit()
        &&& self.consumers()@.len() > 0 ==> self.producers()@.len() > 0
        &&& LABOUR_OUTPUT * self.consumers()@.len() <= i32::MAX
        &&& schedule.wf()
        &&& schedule.covers(LABOUR_OUTPUT * self.consumers()@.len())
        &&& self.producers().stock(Good::Food) + schedule.peak() * self.producers()@.len()
            <= i32::MAX
        &&& self.producers().stock(Good::Clothes) + schedule.peak() * self.producers()@.len()
            <= i32::MAX
    }

    /// The world is as it begins: ten consumers in full health, ten
    /// factories for food and ten for clothes, each with the same money;
    /// markets that have never traded; no day closed.
    pub open spec fn pristine(&self) -> bool {
        &&& self.days() == 0
        &&& self.consumers()@ == Seq::new(
            INITIAL_POPS as nat,
            |i: int| Pop { money: INITIAL_MONEY, health: INITIAL_HEALTH, labour: 0 },
        )
        &&& self.producers()@ == copies(
            INITIAL_FACTORIES as int,
            Factory { good: Good::Food, money: INITIAL_MONEY, inventory: 0, days_closed: 0 },
        ) + copies(
            INITIAL_FACTORIES as int,
            Factory { good: Good::Clothes, money: INITIAL_MONEY, inventory: 0, days_closed: 0 },
        )
        &&& forall|good: Good| #[trigger] self.markets().at(good) == untraded()
    }

    /// The world as it begins.
    pub fn new() -> (world: Self)
        ensures
            world.pristine(),
            world.wf(),
            world.total_money() == INITIAL_MONEY * (INITIAL_POPS + 2 * INITIAL_FACTORIES),
    {
        let industry = IndustryBuilder::new().with(
            INITIAL_FACTORIES,
            Factory::new(Good::Food, INITIAL_MONEY),
        ).with(INITIAL_FACTORIES, Factory::new(Good::Clothes, INITIAL_MONEY)).build();
        let pop = Pop { money: INITIAL_MONEY, health: INITIAL_HEALTH, labour: 0 };
        let population = Population::new(INITIAL_POPS, pop);
        let world = World { market: MarketNetwork::new(), population, industry, day: 0 };
        proof {
            let food = Factory {
                good: Good::Food,
                money: INITIAL_MONEY,
                inventory: 0,
                days_closed: 0,
            };
            let clothes = Factory {
                good: Good::Clothes,
                money: INITIAL_MONEY,
                inventory: 0,
                days_closed: 0,
            };
            let first = copies(INITIAL_FACTORIES as int, food);
            let second = copies(INITIAL_FACTORIES as int, clothes);
            assert(world.industry@ =~= first + second);
            assert(world.population@ =~= Seq::new(INITIAL_POPS as nat, |i: int| pop));
            lemma_tally_constant(world.population@, money_of(), INITIAL_MONEY as int);
            lemma_tally_constant(first, funds_of(), INITIAL_MONEY as int);
            lemma_tally_constant(second, funds_of(), INITIAL_MONEY as int);
            lemma_tally_concat(first, second, funds_of());
        }
        world
    }

    /// The world made of `market`, `population` and `industry`, with no day
    /// closed yet. There is none where a consumer or a factory is not
    /// well-formed, or where there is more money than can be counted in 32
    /// bits.
    pub fn from_parts(market: MarketNetwork, population: Population, industry: Industry) -> (world:
        Option<Self>)
        ensures
            world is Some <==> population.wf() && industry.wf() && population.total_money()
                + industry.total_money() <= i32::MAX,
            world matches Some(w) ==> {
                &&& w.wf()
                &&& w.markets() == market
                &&& w.consumers() == population
                &&& w.producers() == industry
                &&& w.days() == 0
            },
    {
        if !population.is_wf() || !industry.is_wf() {
            return None;
        }
        let pops = population.count();
        let factories = industry.count();
        proof {
            lemma_money_non_negative(population@);
            lemma_tally_bounds(population@, money_of());
            lemma_funds_non_negative(industry@);
            lemma_tally_bounds(industry@, funds_of());
            lemma_wealth_bound(population@, money_of());
            lemma_wealth_bound(industry@, funds_of());
            assert(0x8000_0000 * pops <= 0x8000_0000 * 0x1_0000_0000_0000_0000)
                by (nonlinear_arith)
                requires
                    pops <= 0x1_0000_0000_0000_0000,
            ;
            assert(0x8000_0000 * factories <= 0x8000_0000 * 0x1_0000_0000_0000_0000)
                by (nonlinear_arith)
                requires
                    factories <= 0x1_0000_0000_0000_0000,
            ;
        }
        if population.wealth() + industry.wealth() > i32::MAX as i128 {
            return None;
        }
        Some(World { market, population, industry, day: 0 })
    }

    /// Whether a day can be run with `schedule`.
    pub fn can_tick(&self, schedule: &Schedule) -> (ok: bool)
        requires
            schedule.wf(),
        ensures
            ok == self.ready(schedule),
    {
        let pops = self.population.count();
        let factories = self.industry.count();
        if !self.population.is_fit() || !self.industry.is_fit() {
            return false;
        }
        if pops > 0 && factories == 0 {
            return false;
        }
        if pops > MAX_POPS {
            assert(LABOUR_OUTPUT * self.consumers()@.len() > i32::MAX) by (nonlinear_arith)
                requires
                    self.consumers()@.len() > MAX_POPS,
            ;
            return false;
        }
        proof {
            assert(pops * (LABOUR_OUTPUT as usize) == LABOUR_OUTPUT * self.consumers()@.len()
                <= i32::MAX) by (nonlinear_arith)
                requires
                    pops <= MAX_POPS,
                    pops == self.consumers()@.len(),
            ;
        }
        let labour = pops * (LABOUR_OUTPUT as usize);
        let reach = schedule.reach();
        if labour >= reach {
            assert(!schedule.covers(labour as int));
            return false;
        }
        assert(schedule.covers(labour as int));
        let peak = schedule.max_output() as i128;
        proof {
            assert(0 <= peak * factories <= 0x8000_0000 * 0x1_0000_0000_0000_0000)
                by (nonlinear_arith)
                requires
                    0 <= peak <= 0x8000_0000,
                    0 <= factories <= 0x1_0000_0000_0000_0000,
            ;
        }
        let most = peak * factories as i128;
        let food = self.industry.inventory(Good::Food);
        let clothes = self.industry.inventory(Good::Clothes);
        proof {
            lemma_stock_non_negative(&self.industry, Good::Food);
            lemma_stock_non_negative(&self.industry, Good::Clothes);
            lemma_stock_bound(&self.industry, Good::Food);
            lemma_stock_bound(&self.industry, Good::Clothes);
        }
        assert(most == schedule.peak() * self.producers()@.len());
        food + most <= i32::MAX as i128 && clothes + most <= i32::MAX as i128
    }

    /// Runs a trading day up to its close: the markets open, the consumers
    /// have their day (see [`Population::tick`]), then the factories have
    /// theirs (see [`Industry::tick`]), at the prices at which the markets
    /// opened. What the factories offer today, the consumers can buy
    /// tomorrow.
    ///
    /// Returns whether the day was run to the end. It is not where there is
    /// no consumer after the consumers' day while there are factories: these
    /// then have nobody to hire from, and their day does not take place.
    ///
    /// Afterwards every consumer has health and no factory has been idle for
    /// long, so that everyone can go through another day. Whether the next
    /// day can be run is still to be asked of [`World::can_tick`]: the
    /// consumers may have died out, or more may be on offer than the markets
    /// can count.
    pub fn tick(&mut self, schedule: &Schedule) -> (complete: bool)
        requires
            old(self).wf(),
            old(self).ready(schedule),
        ensures
            exists|consumers: Population, factories: Industry, markets: MarketNetwork|
                {
                    &&& #[trigger] consumers_day(
                        old(self).consumers(),
                        old(self).producers(),
                        old(self).markets().opened(),
                        consumers,
                        factories,
                        markets,
                    )
                    &&& complete ==> factories_day(
                        factories,
                        consumers,
                        markets,
                        *schedule,
                        final(self).producers(),
                        final(self).consumers(),
                        final(self).markets(),
                    )
                    &&& !complete ==> final(self).consumers() == consumers
                        && final(self).producers() == factories && final(self).markets() == markets
                    &&& complete <==> !(consumers@.len() == 0 && factories@.len() > 0)
                },
            final(self).wf(),
            final(self).consumers().fit(),
            final(self).producers().fit(),
            final(self).days() == old(self).days(),
            complete <==> !(final(self).consumers()@.len() == 0 && final(self).producers()@.len()
                > 0),
            final(self).consumers()@.len() > 0 ==> final(self).total_money()
                == old(self).total_money(),
            final(self).total_money() <= old(self).total_money(),
            final(self).consumers()@.len() <= 2 * old(self).consumers()@.len(),
            final(self).producers()@.len() <= 2 * old(self).producers()@.len(),
            forall|good: Good| #[trigger]
                final(self).markets().at(good).price == old(self).markets().at(good).opened().price,
            final(self).markets().is_open(),
            final(self).markets().at(Good::Food).demand == old(self).consumers().orders(
                FOOD_BUDGET_PERCENT as int,
                final(self).markets().at(Good::Food).price as int,
            ),
            final(self).markets().at(Good::Clothes).demand == old(self).consumers().orders(
                CLOTHES_BUDGET_PERCENT as int,
                final(self).markets().at(Good::Clothes).price as int,
            ),
            final(self).markets().at(Good::Labour).supply
                == LABOUR_OUTPUT * old(self).consumers()@.len(),
    {
        let ghost before = *self;
        self.market.open();
        let ghost food_price = self.market.at(Good::Food).price as int;
        let ghost clothes_price = self.market.at(Good::Clothes).price as int;
        let ghost labour_price = self.market.at(Good::Labour).price as int;
        proof {
            assert(self.market.at(Good::Food).is_open());
            assert(self.market.at(Good::Clothes).is_open());
            assert(self.market.at(Good::Labour).is_open());
            lemma_orders_within_money(self.population@, FOOD_BUDGET_PERCENT as int, food_price);
            lemma_orders_within_money(
                self.population@,
                CLOTHES_BUDGET_PERCENT as int,
                clothes_price,
            );
            lemma_stock_non_negative(&self.industry, Good::Food);
            lemma_stock_non_negative(&self.industry, Good::Clothes);
        }
        let ghost opened = self.market;
        self.population.tick(&mut self.industry, &mut self.market);
        let ghost consumers = self.population;
        let ghost factories = self.industry;
        let ghost markets = self.market;
        proof {
            assert(consumers_day(
                before.population,
                before.industry,
                opened,
                consumers,
                factories,
                markets,
            ));
            lemma_stock_non_negative(&self.industry, Good::Food);
            lemma_stock_non_negative(&self.industry, Good::Clothes);
            lemma_money_non_negative(self.population@);
            lemma_tally_bounds(self.population@, money_of());
            assert(self.industry.fit()) by {
                assert forall|i: int| 0 <= i < self.industry@.len() implies (
                #[trigger] self.industry@[i]).fit() by {
                    assert(before.industry@[i].fit());
                }
            }
        }
        if self.population.count() == 0 && self.industry.count() > 0 {
            return false;
        }
        proof {
            lemma_labour_orders_within_money(self.industry@, labour_price);
            assert(schedule.peak() * self.industry@.len() == schedule.peak()
                * before.industry@.len());
        }
        self.industry.tick(&mut self.population, &mut self.market, schedule);
        proof {
            lemma_stock_non_negative(&self.industry, Good::Food);
            lemma_money_non_negative(self.population@);
            lemma_tally_bounds(self.population@, money_of());
        }
        true
    }

    /// Closes the day that [`World::tick`] has run: every market closes at
    /// the price that `quotes` holds at the position of its good, and the
    /// day is counted.
    pub fn close(&mut self, quotes: [i32; NUM_OF_GOODS])
        requires
            old(self).days() < i32::MAX,
        ensures
            forall|good: Good| #[trigger]
                final(self).markets().at(good) == old(self).markets().at(good).closed(
                    quotes[good.index()],
                ),
            final(self).days() == old(self).days() + 1,
            final(self).consumers() == old(self).consumers(),
            final(self).producers() == old(self).producers(),
            final(self).total_money() == old(self).total_money(),
            old(self).wf() ==> final(self).wf(),
    {
        self.market.close(quotes);
        self.day = self.day + 1;
    }

    /// The markets.
    pub fn market(&self) -> (market: &MarketNetwork)
        ensures
            *market == self.markets(),
    {
        &self.market
    }

    /// The consumers.
    pub fn population(&self) -> (population: &Population)
        ensures
            *population == self.consumers(),
    {
        &self.population
    }

    /// The factories.
    pub fn industry(&self) -> (industry: &Industry)
        ensures
            *industry == self.producers(),
    {
        &self.industry
    }

    /// How many days have been closed.
    pub fn day(&self) -> (day: i32)
        ensures
            day == self.days(),
    {
        self.day
    }

    /// What the day's trading asks of the price of `good`: to be read after
    /// [`World::tick`] and before [`World::close`].
    pub fn pending(&self, good: Good) -> (adjustment: Adjustment)
        ensures
            adjustment == self.markets().at(good).adjustment(),
    {
        self.market.pending(good)
    }
}

impl Default for World {
    /// The world as it begins.
    fn default() -> (world: Self)
        ensures
            world.pristine(),
            world.wf(),
    {
        World::new()
    }
}

/// What the consumers order with a part of their money costs no more than
/// all their money.
pub proof fn lemma_orders_within_money(pops: Seq<Pop>, percent: int, price: int)
    requires
        forall|i: int| 0 <= i < pops.len() ==> (#[trigger] pops[i]).wf(),
        0 <= percent <= 100,
        1 <= price,
    ensures
        0 <= tally(pops, order_of(percent, price)) <= tally(pops, money_of()),
{
    assert forall|i: int| 0 <= i < pops.len() implies 0 <= order_of(percent, price)(
        #[trigger] pops[i],
    ) <= money_of()(pops[i]) by {
        let money = pops[i].money as int;
        assert(pops[i].wf());
        assert(0 <= (money * percent / 100) / price <= money) by (nonlinear_arith)
            requires
                0 <= money,
                0 <= percent <= 100,
                1 <= price,
        ;
    }
    lemma_tally_le(pops, order_of(percent, price), money_of());
    lemma_tally_bounds(pops, order_of(percent, price));
}

/// What the factories order of labour costs no more than all their money.
pub proof fn lemma_labour_orders_within_money(factories: Seq<Factory>, price: int)
    requires
        forall|i: int| 0 <= i < factories.len() ==> (#[trigger] factories[i]).wf(),
        1 <= price,
    ensures
        0 <= tally(factories, labour_order_of(price)) <= tally(factories, funds_of()),
{
    assert forall|i: int| 0 <= i < factories.len() implies 0 <= labour_order_of(price)(
        #[trigger] factories[i],
    ) <= funds_of()(factories[i]) by {
        let money = factories[i].money as int;
        assert(factories[i].wf());
        assert(0 <= (money * LABOUR_BUDGET_PERCENT / 100) / price <= money) by (nonlinear_arith)
            requires
                0 <= money,
                1 <= price,
        ;
    }
    lemma_tally_le(factories, labour_order_of(price), funds_of());
    lemma_tally_bounds(factories, labour_order_of(price));
}

/// What the factories have on offer of one good is a number that fits in 96
/// bits.
pub proof fn lemma_stock_bound(industry: &Industry, good: Good)
    ensures
        industry.stock(good) <= 0x8000_0000 * industry@.len(),
{
    lemma_tally_le(industry@, stock_of(good), |f: Factory| 0x8000_0000int);
    lemma_tally_constant(industry@, |f: Factory| 0x8000_0000int, 0x8000_0000);
}

/// A total of 32-bit numbers fits in 96 bits.
pub proof fn lemma_wealth_bound<T>(s: Seq<T>, f: spec_fn(T) -> int)
    requires
        forall|i: int| 0 <= i < s.len() ==> f(#[trigger] s[i]) <= i32::MAX,
    ensures
        tally(s, f) <= 0x8000_0000 * s.len(),
{
    lemma_tally_le(s, f, |x: T| 0x8000_0000int);
    lemma_tally_constant(s, |x: T| 0x8000_0000int, 0x8000_0000);
}

} // verus!
