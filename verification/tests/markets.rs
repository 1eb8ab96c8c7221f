use economy::good::Good;
use economy::market::{
    Adjustment, Market, MarketNetwork, Step, Trend, ACCELERATION_PERCENT, INITIAL_SPEED_PERCENT,
    MIN_SPEED_PERCENT, REVERSAL_PERCENT,
};

/// The speed of a price after `adjustment`, worked out in fractions.
fn adjusted(velocity: f32, adjustment: Adjustment) -> f32 {
    let moved = match adjustment.step {
        Step::Halt => 0.0,
        _ => velocity * (adjustment.scale_percent() as f32 / 100.0),
    };
    let bound = adjustment.bound_percent() as f32 / 100.0;
    match adjustment.trend {
        Trend::Rising => moved.max(bound),
        Trend::Falling => moved.min(bound),
        Trend::Steady => moved,
    }
}

fn market(price: i32, demand: i32, supply: i32, momentum: Trend) -> Market {
    Market { price, demand, supply, momentum }
}

#[test]
fn open_lifts_the_price_and_clears_the_counts() {
    for price in [i32::MIN, -7, 0, 1, 2, 150, i32::MAX] {
        let mut m = market(price, 17, 4, Trend::Falling);
        m.open();
        assert!(m.price >= 1);
        assert_eq!(m.price, price.max(1));
        assert_eq!(m.demand, 0);
        assert_eq!(m.supply, 0);
        assert_eq!(m.momentum, Trend::Falling);
    }
}

#[test]
fn network_opens_every_market() {
    let mut network = MarketNetwork::new();
    for good in [Good::Food, Good::Clothes, Good::Labour] {
        assert_eq!(network.market(good), market(0, 0, 0, Trend::Rising));
    }
    network.inc_demand(Good::Food, 3);
    network.inc_supply(Good::Labour, 9);
    network.open();
    for good in [Good::Food, Good::Clothes, Good::Labour] {
        assert_eq!(network.market(good), market(1, 0, 0, Trend::Rising));
        assert_eq!(network.price(good), 1);
    }
}

#[test]
fn counts_add_up_on_their_own_market() {
    let mut network = MarketNetwork::new();
    network.open();
    network.inc_demand(Good::Food, 5);
    network.inc_demand(Good::Food, 0);
    network.inc_demand(Good::Food, 7);
    network.inc_supply(Good::Food, 2);
    network.inc_supply(Good::Clothes, 11);
    assert_eq!(network.market(Good::Food), market(1, 12, 2, Trend::Rising));
    assert_eq!(network.market(Good::Clothes), market(1, 0, 11, Trend::Rising));
    assert_eq!(network.market(Good::Labour), market(1, 0, 0, Trend::Rising));
}

#[test]
fn every_pair_of_momentum_and_trend_has_its_step() {
    let cases = [
        (Trend::Rising, 5, 2, Trend::Rising, Step::Accelerate),
        (Trend::Falling, 5, 2, Trend::Rising, Step::Reverse),
        (Trend::Steady, 5, 2, Trend::Rising, Step::Reverse),
        (Trend::Rising, 2, 5, Trend::Falling, Step::Reverse),
        (Trend::Falling, 2, 5, Trend::Falling, Step::Accelerate),
        (Trend::Steady, 2, 5, Trend::Falling, Step::Reverse),
        (Trend::Rising, 3, 3, Trend::Steady, Step::Halt),
        (Trend::Falling, 3, 3, Trend::Steady, Step::Halt),
        (Trend::Steady, 3, 3, Trend::Steady, Step::Halt),
    ];
    for (momentum, demand, supply, trend, step) in cases {
        let m = market(10, demand, supply, momentum);
        assert_eq!(m.pending(), Adjustment { trend, step });
    }
}

#[test]
fn the_numbers_of_the_rule() {
    assert_eq!(ACCELERATION_PERCENT, 150);
    assert_eq!(REVERSAL_PERCENT, -50);
    assert_eq!(MIN_SPEED_PERCENT, 1);
    assert_eq!(INITIAL_SPEED_PERCENT, 1000);
    let up = Adjustment { trend: Trend::Rising, step: Step::Accelerate };
    assert_eq!((up.scale_percent(), up.bound_percent()), (150, 1));
    let down = Adjustment { trend: Trend::Falling, step: Step::Reverse };
    assert_eq!((down.scale_percent(), down.bound_percent()), (-50, -1));
    let still = Adjustment { trend: Trend::Steady, step: Step::Halt };
    assert_eq!((still.scale_percent(), still.bound_percent()), (0, 0));
}

#[test]
fn a_falling_price_under_demand_turns_and_halves() {
    let mut m = market(10, 5, 2, Trend::Falling);
    let price_f32: f32 = 10.0;
    let velocity: f32 = -2.0;
    let adjustment = m.pending();
    assert_eq!(adjustment, Adjustment { trend: Trend::Rising, step: Step::Reverse });
    let velocity = adjusted(velocity, adjustment);
    assert_eq!(velocity, 1.0);
    let price_f32 = price_f32 + velocity;
    assert_eq!(price_f32, 11.0);
    m.close(price_f32.round() as i32);
    assert_eq!(m, market(11, 5, 2, Trend::Rising));
}

#[test]
fn a_balanced_market_keeps_its_price() {
    let mut m = market(10, 3, 3, Trend::Falling);
    let price_f32: f32 = 10.0;
    let adjustment = m.pending();
    let velocity = adjusted(-2.0, adjustment);
    assert_eq!(velocity, 0.0);
    m.close((price_f32 + velocity).round() as i32);
    assert_eq!(m, market(10, 3, 3, Trend::Steady));
}

#[test]
fn a_stalled_price_starts_at_the_least_speed() {
    let m = market(10, 4, 1, Trend::Steady);
    assert_eq!(adjusted(0.0, m.pending()), 0.01);
    let m = market(10, 1, 4, Trend::Steady);
    assert_eq!(adjusted(0.0, m.pending()), -0.01);
    let m = market(10, 4, 1, Trend::Rising);
    assert_eq!(adjusted(0.004, m.pending()), 0.01);
    assert_eq!(adjusted(10.0, m.pending()), 15.0);
}

#[test]
fn network_closes_every_market_at_its_quote() {
    let mut network = MarketNetwork::new();
    network.open();
    network.inc_demand(Good::Food, 5);
    network.inc_supply(Good::Clothes, 4);
    assert_eq!(
        network.pending(Good::Food),
        Adjustment { trend: Trend::Rising, step: Step::Accelerate }
    );
    assert_eq!(
        network.pending(Good::Clothes),
        Adjustment { trend: Trend::Falling, step: Step::Reverse }
    );
    assert_eq!(
        network.pending(Good::Labour),
        Adjustment { trend: Trend::Steady, step: Step::Halt }
    );
    network.close([16, -4, 1]);
    assert_eq!(network.market(Good::Food), market(16, 5, 0, Trend::Rising));
    assert_eq!(network.market(Good::Clothes), market(-4, 0, 4, Trend::Falling));
    assert_eq!(network.market(Good::Labour), market(1, 0, 0, Trend::Steady));
    network.open();
    assert_eq!(network.price(Good::Clothes), 1);
    assert_eq!(network.price(Good::Food), 16);
}
