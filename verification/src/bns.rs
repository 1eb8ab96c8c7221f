//! Buying and selling: the trades that consumers and factories make with one
//! another, each counted on the market of its good.

use vstd::prelude::*;
use crate::good::Good;
use crate::industry::{sold_from, stock_of, traded, Industry};
use crate::market::MarketNetwork;
use crate::population::{hired_from, labour_of, Population};
use crate::scan::filled;

verus! {

/// What an order got: how many units, and what they cost together.
#[derive(Debug, Clone, Copy, PartialEq, Eq, Structural)]
pub struct Purchase {
    pub cost: i32,
    pub amount: i32,
}

impl Default for Purchase {
    /// The purchase of nothing.
    fn default() -> (purchase: Self)
        ensures
            purchase == (Purchase { cost: 0, amount: 0 }),
    {
        Purchase { cost: 0, amount: 0 }
    }
}

/// Orders `target_amount` units of labour from the consumers, at today's
/// price. The whole order counts as demand, whatever part of it is filled.
pub fn buy_labour(population: &mut Population, market: &mut MarketNetwork, target_amount: i32)
    -> (purchase: Purchase)
    requires
        old(population)@.len() > 0,
        old(population).can_hire(target_amount as int, old(market).at(Good::Labour).price as int),
        old(market).at(Good::Labour).demand + target_amount <= i32::MAX,
    ensures
        final(market).at(Good::Labour) == old(market).at(Good::Labour).asked(target_amount as int),
        forall|other: Good|
            other != Good::Labour ==> #[trigger] final(market).at(other) == old(market).at(other),
        exists|offset: int|
            0 <= offset < old(population)@.len() && final(population)@ == #[trigger] hired_from(
                old(population)@,
                offset,
                target_amount as int,
                old(market).at(Good::Labour).price as int,
            ),
        purchase.amount == filled(old(population)@, labour_of(), target_amount as int),
        purchase.cost == purchase.amount * old(market).at(Good::Labour).price,
        final(population)@.len() == old(population)@.len(),
        final(population).wf(),
        final(population).total_money() == old(population).total_money() + purchase.cost,
        final(population).total_labour() == old(population).total_labour() - purchase.amount,
        forall|i: int|
            0 <= i < old(population)@.len() ==> (#[trigger] final(population)@[i]).health
                == old(population)@[i].health,
{
    market.inc_demand(Good::Labour, target_amount);
    population.buy_labour(target_amount, market.price(Good::Labour))
}

/// Orders `target_amount` units of `good` from the factories, at today's
/// price. The whole order counts as demand, whatever part of it is filled.
pub fn buy_commodities(
    industry: &mut Industry,
    market: &mut MarketNetwork,
    good: Good,
    target_amount: i32,
) -> (purchase: Purchase)
    requires
        good.is_commodity(),
        old(industry)@.len() > 0,
        old(industry).can_sell(good, target_amount as int, old(market).at(good).price as int),
        old(market).at(good).demand + target_amount <= i32::MAX,
    ensures
        final(market).at(good) == old(market).at(good).asked(target_amount as int),
        forall|other: Good| other != good ==> #[trigger] final(market).at(other)
            == old(market).at(other),
        exists|offset: int|
            0 <= offset < old(industry)@.len() && final(industry)@ == #[trigger] sold_from(
                old(industry)@,
                offset,
                good,
                target_amount as int,
                old(market).at(good).price as int,
            ),
        purchase.amount == filled(old(industry)@, stock_of(good), target_amount as int),
        purchase.cost == purchase.amount * old(market).at(good).price,
        final(industry)@.len() == old(industry)@.len(),
        final(industry).wf(),
        final(industry).total_money() == old(industry).total_money() + purchase.cost,
        final(industry).stock(good) == old(industry).stock(good) - purchase.amount,
        forall|other: Good|
            other != good ==> #[trigger] final(industry).stock(other) == old(industry).stock(other),
        traded(old(industry)@, final(industry)@),
{
    market.inc_demand(good, target_amount);
    industry.buy(target_amount, good, market.price(good))
}

/// Offers `amount` units of `good` on its market.
pub fn publish_for_sale(market: &mut MarketNetwork, good: Good, amount: i32)
    requires
        0 <= amount,
        old(market).at(good).supply + amount <= i32::MAX,
    ensures
        final(market).at(good) == old(market).at(good).offered(amount as int),
        forall|other: Good| other != good ==> #[trigger] final(market).at(other)
            == old(market).at(other),
{
    market.inc_supply(good, amount);
}

} // verus!
