//! One market per good: the day's orders are counted, and from them the
//! direction in which the price is to move is decided.
//!
//! The price itself is a whole number and is what every trade of the day is
//! settled at. How far the price moves is a matter of fractions and is left to
//! the caller: a market says which [`Adjustment`] the day calls for, and is
//! closed with the price that results from it.

use vstd::prelude::*;
use crate::good::{Good, NUM_OF_GOODS};

verus! {

/// The speed of the price is multiplied by this many hundredths when the
/// pressure on the price keeps its direction.
pub const ACCELERATION_PERCENT: i32 = 150;

/// The speed of the price is multiplied by this many hundredths when the
/// pressure on the price turns against it: it changes sign and halves.
pub const REVERSAL_PERCENT: i32 = -50;

/// Under pressure the price moves by at least this many hundredths a day.
pub const MIN_SPEED_PERCENT: i32 = 1;

/// The speed, in hundredths, with which every price of a new network sets
/// out, to start the economy.
pub const INITIAL_SPEED_PERCENT: i32 = 1000;

/// Which way a price is pushed.
#[derive(Debug, Clone, Copy, PartialEq, Eq, Structural)]
pub enum Trend {
    /// More was asked for than offered.
    Rising,
    /// More was offered than asked for.
    Falling,
    /// As much was asked for as offered.
    Steady,
}

/// What is to happen to the speed of a price.
#[derive(Debug, Clone, Copy, PartialEq, Eq, Structural)]
pub enum Step {
    /// The speed already has the direction of the trend: it grows.
    Accelerate,
    /// The speed does not have the direction of the trend: it turns and
    /// shrinks.
    Reverse,
    /// No pressure: the speed becomes zero.
    Halt,
}

/// What a day's trading asks of a price: how its speed changes, and the
/// direction in which the speed is then kept away from zero.
#[derive(Debug, Clone, Copy, PartialEq, Eq, Structural)]
pub struct Adjustment {
    pub trend: Trend,
    pub step: Step,
}

impl Adjustment {
    /// Hundredths by which the speed is multiplied.
    pub open spec fn scale(self) -> int {
        match self.step {
            Step::Accelerate => ACCELERATION_PERCENT as int,
            Step::Reverse => REVERSAL_PERCENT as int,
            Step::Halt => 0,
        }
    }

    /// Hundredths at which the speed is held afterwards: from below when the
    /// price rises, from above when it falls.
    pub open spec fn bound(self) -> int {
        match self.trend {
            Trend::Rising => MIN_SPEED_PERCENT as int,
            Trend::Falling => -MIN_SPEED_PERCENT,
            Trend::Steady => 0,
        }
    }

    /// Hundredths by which the speed is multiplied.
    pub fn scale_percent(&self) -> (percent: i32)
        ensures
            percent == self.scale(),
    {
        match self.step {
            Step::Accelerate => ACCELERATION_PERCENT,
            Step::Reverse => REVERSAL_PERCENT,
            Step::Halt => 0,
        }
    }

    /// Hundredths at which the speed is held afterwards.
    pub fn bound_percent(&self) -> (percent: i32)
        ensures
            percent == self.bound(),
    {
        match self.trend {
            Trend::Rising => MIN_SPEED_PERCENT,
            Trend::Falling => -MIN_SPEED_PERCENT,
            Trend::Steady => 0,
        }
    }
}

/// The trend that `demand` and `supply` make.
pub open spec fn trend_of(demand: int, supply: int) -> Trend {
    if demand > supply {
        Trend::Rising
    } else if demand < supply {
        Trend::Falling
    } else {
        Trend::Steady
    }
}

/// The adjustment for a price that was last pushed in the direction
/// `momentum` and is now pushed in the direction `trend`.
pub open spec fn adjustment_of(momentum: Trend, trend: Trend) -> Adjustment {
    Adjustment {
        trend,
        step: if trend == Trend::Steady {
            Step::Halt
        } else if momentum == trend {
            Step::Accelerate
        } else {
            Step::Reverse
        },
    }
}

/// A market that has never traded: no price yet, and the price set to
/// rise.
pub open spec fn untraded() -> Market {
    Market { price: 0, demand: 0, supply: 0, momentum: Trend::Rising }
}

/// The market of one good.
#[derive(Debug, Clone, Copy, PartialEq, Eq, Structural)]
pub struct Market {
    /// What one unit costs today.
    pub price: i32,
    /// Units asked for since the market opened.
    pub demand: i32,
    /// Units offered since the market opened.
    pub supply: i32,
    /// The sign of the speed of the price: the trend on which the market last
    /// closed.
    pub momentum: Trend,
}

impl Market {
    /// A market can trade: a unit costs something, and the counts are counts.
    pub open spec fn is_open(self) -> bool {
        &&& self.price >= 1
        &&& self.demand >= 0
        &&& self.supply >= 0
    }

    /// The trend of the day so far.
    pub open spec fn trend(self) -> Trend {
        trend_of(self.demand as int, self.supply as int)
    }

    /// What the day so far asks of the price.
    pub open spec fn adjustment(self) -> Adjustment {
        adjustment_of(self.momentum, self.trend())
    }

    /// The market at the start of the next trading day.
    pub open spec fn opened(self) -> Market {
        Market {
            price: if self.price >= 1 {
                self.price
            } else {
                1
            },
            demand: 0,
            supply: 0,
            momentum: self.momentum,
        }
    }

    /// The market at the end of the trading day, with the price `quote`.
    pub open spec fn closed(self, quote: i32) -> Market {
        Market { price: quote, demand: self.demand, supply: self.supply, momentum: self.trend() }
    }

    /// The market after `n` more units were asked for.
    pub open spec fn asked(self, n: int) -> Market {
        Market { demand: (self.demand + n) as i32, ..self }
    }

    /// The market after `n` more units were offered.
    pub open spec fn offered(self, n: int) -> Market {
        Market { supply: (self.supply + n) as i32, ..self }
    }

    /// Starts a trading day: the price is lifted to 1 if it is below, and the
    /// counts start at zero.
    pub fn open(&mut self)
        ensures
            *final(self) == old(self).opened(),
            final(self).price >= 1,
            final(self).demand == 0,
            final(self).supply == 0,
            final(self).is_open(),
    {
        if self.price < 1 {
            self.price = 1;
        }
        self.demand = 0;
        self.supply = 0;
    }

    /// What the day's trading asks of the price: to be read before the market
    /// is closed.
    pub fn pending(&self) -> (adjustment: Adjustment)
        ensures
            adjustment == self.adjustment(),
    {
        let trend = if self.demand > self.supply {
            Trend::Rising
        } else if self.demand < self.supply {
            Trend::Falling
        } else {
            Trend::Steady
        };
        let step = match trend {
            Trend::Steady => Step::Halt,
            Trend::Rising => match self.momentum {
                Trend::Rising => Step::Accelerate,
                _ => Step::Reverse,
            },
            Trend::Falling => match self.momentum {
                Trend::Falling => Step::Accelerate,
                _ => Step::Reverse,
            },
        };
        Adjustment { trend, step }
    }

    /// Ends a trading day at `quote`, the price that came of the day's
    /// adjustment. The day's trend is remembered as the momentum; the counts
    /// stay readable until the market opens again.
    pub fn close(&mut self, quote: i32)
        ensures
            *final(self) == old(self).closed(quote),
    {
        self.momentum = if self.demand > self.supply {
            Trend::Rising
        } else if self.demand < self.supply {
            Trend::Falling
        } else {
            Trend::Steady
        };
        self.price = quote;
    }
}

impl Default for Market {
    /// A market that has never traded and whose price is not set to move.
    fn default() -> (market: Self)
        ensures
            market == (Market { price: 0, demand: 0, supply: 0, momentum: Trend::Steady }),
    {
        Market { price: 0, demand: 0, supply: 0, momentum: Trend::Steady }
    }
}

/// A market that opens can trade: a unit costs at least 1, and nothing has
/// been asked for or offered yet.
pub proof fn lemma_opened_market(market: Market)
    ensures
        market.opened().price >= 1,
        market.opened().demand == 0,
        market.opened().supply == 0,
        market.opened().is_open(),
        market.opened().opened() == market.opened(),
{
}

/// The markets of all goods.
pub struct MarketNetwork {
    food: Market,
    clothes: Market,
    labour: Market,
}

impl MarketNetwork {
    /// The market of `good`.
    pub closed spec fn at(&self, good: Good) -> Market {
        match good {
            Good::Food => self.food,
            Good::Clothes => self.clothes,
            Good::Labour => self.labour,
        }
    }

    /// Every market can trade.
    pub open spec fn is_open(&self) -> bool {
        forall|good: Good| (#[trigger] self.at(good)).is_open()
    }

    /// Every market has just been opened: nothing was asked for or offered
    /// yet.
    pub open spec fn is_fresh(&self) -> bool {
        forall|good: Good|
            (#[trigger] self.at(good)).price >= 1 && self.at(good).demand == 0 && self.at(
                good,
            ).supply == 0
    }

    /// Markets that have never traded: no price yet, and every price set to
    /// rise.
    pub fn new() -> (network: Self)
        ensures
            forall|good: Good| #[trigger] network.at(good) == untraded(),
    {
        let market = Market { price: 0, demand: 0, supply: 0, momentum: Trend::Rising };
        MarketNetwork { food: market, clothes: market, labour: market }
    }

    /// The markets at the start of the next trading day.
    pub closed spec fn opened(&self) -> MarketNetwork {
        MarketNetwork {
            food: self.food.opened(),
            clothes: self.clothes.opened(),
            labour: self.labour.opened(),
        }
    }

    /// The markets at the end of the trading day, with the prices `quotes`.
    pub closed spec fn closed(&self, quotes: [i32; NUM_OF_GOODS]) -> MarketNetwork {
        MarketNetwork {
            food: self.food.closed(quotes[0]),
            clothes: self.clothes.closed(quotes[1]),
            labour: self.labour.closed(quotes[2]),
        }
    }

    /// Opening or closing the markets opens or closes the market of each
    /// good.
    pub proof fn lemma_each_market(&self, quotes: [i32; NUM_OF_GOODS])
        ensures
            forall|good: Good| #[trigger] self.opened().at(good) == self.at(good).opened(),
            forall|good: Good| #[trigger]
                self.closed(quotes).at(good) == self.at(good).closed(quotes[good.index()]),
    {
    }

    /// Starts a trading day on every market.
    pub fn open(&mut self)
        ensures
            *final(self) == old(self).opened(),
            forall|good: Good| #[trigger] final(self).at(good) == old(self).at(good).opened(),
            final(self).is_open(),
            final(self).is_fresh(),
    {
        self.food.open();
        self.clothes.open();
        self.labour.open();
    }

    /// Ends the trading day on every market; `quotes` holds the new price of
    /// each good at the good's position.
    pub fn close(&mut self, quotes: [i32; NUM_OF_GOODS])
        ensures
            *final(self) == old(self).closed(quotes),
            forall|good: Good| #[trigger]
                final(self).at(good) == old(self).at(good).closed(quotes[good.index()]),
    {
        self.food.close(quotes[0]);
        self.clothes.close(quotes[1]);
        self.labour.close(quotes[2]);
    }

    /// The market of `good`, as it stands.
    pub fn market(&self, good: Good) -> (market: Market)
        ensures
            market == self.at(good),
    {
        match good {
            Good::Food => self.food,
            Good::Clothes => self.clothes,
            Good::Labour => self.labour,
        }
    }

    /// What a unit of `good` costs today.
    pub fn price(&self, good: Good) -> (price: i32)
        ensures
            price == self.at(good).price,
    {
        self.market(good).price
    }

    /// What the day's trading asks of the price of `good`.
    pub fn pending(&self, good: Good) -> (adjustment: Adjustment)
        ensures
            adjustment == self.at(good).adjustment(),
    {
        self.market(good).pending()
    }

    /// Counts `n` more units of `good` as asked for.
    pub fn inc_demand(&mut self, good: Good, n: i32)
        requires
            0 <= n,
            old(self).at(good).demand + n <= i32::MAX,
        ensures
            final(self).at(good) == old(self).at(good).asked(n as int),
            forall|other: Good| other != good ==> #[trigger] final(self).at(other)
                == old(self).at(other),
    {
        match good {
            Good::Food => {
                self.food.demand = self.food.demand + n;
            },
            Good::Clothes => {
                self.clothes.demand = self.clothes.demand + n;
            },
            Good::Labour => {
                self.labour.demand = self.labour.demand + n;
            },
        }
    }

    /// Counts `n` more units of `good` as offered.
    pub fn inc_supply(&mut self, good: Good, n: i32)
        requires
            0 <= n,
            old(self).at(good).supply + n <= i32::MAX,
        ensures
            final(self).at(good) == old(self).at(good).offered(n as int),
            forall|other: Good| other != good ==> #[trigger] final(self).at(other)
                == old(self).at(other),
    {
        match good {
            Good::Food => {
                self.food.supply = self.food.supply + n;
            },
            Good::Clothes => {
                self.clothes.supply = self.clothes.supply + n;
            },
            Good::Labour => {
                self.labour.supply = self.labour.supply + n;
            },
        }
    }
}

impl Default for MarketNetwork {
    /// Markets that have never traded and whose prices are not set to move.
    fn default() -> (network: Self)
        ensures
            forall|good: Good| #[trigger]
                network.at(good) == (Market {
                    price: 0,
                    demand: 0,
                    supply: 0,
                    momentum: Trend::Steady,
                }),
    {
        let market = Market { price: 0, demand: 0, supply: 0, momentum: Trend::Steady };
        MarketNetwork { food: market, clothes: market, labour: market }
    }
}

} // verus!
