use economy::good::Good;
use economy::industry::{Factory, Industry};
use economy::market::{Adjustment, Market, MarketNetwork, Step, Trend, INITIAL_SPEED_PERCENT};
use economy::population::{Pop, Population};
use economy::production::Schedule;
use economy::world::{World, INITIAL_FACTORIES, INITIAL_HEALTH, INITIAL_MONEY, INITIAL_POPS};

const GOODS: [Good; 3] = [Good::Food, Good::Clothes, Good::Labour];

/// The fractions behind the prices: where each price stands, and how fast it
/// moves.
struct Prices {
    price: [f32; 3],
    velocity: [f32; 3],
}

impl Prices {
    fn new() -> Self {
        Prices { price: [0.0; 3], velocity: [INITIAL_SPEED_PERCENT as f32 / 100.0; 3] }
    }

    fn open(&mut self) {
        for p in self.price.iter_mut() {
            *p = p.max(1.0);
        }
    }

    fn close(&mut self, good: Good, adjustment: Adjustment) -> i32 {
        let i = good.to_index();
        let moved = match adjustment.step {
            Step::Halt => 0.0,
            _ => self.velocity[i] * (adjustment.scale_percent() as f32 / 100.0),
        };
        let bound = adjustment.bound_percent() as f32 / 100.0;
        self.velocity[i] = match adjustment.trend {
            Trend::Rising => moved.max(bound),
            Trend::Falling => moved.min(bound),
            Trend::Steady => moved,
        };
        self.price[i] += self.velocity[i];
        self.price[i].round() as i32
    }
}

fn output(good: Good, labour: usize) -> i32 {
    ((good.yield_percent() as f32 / 100.0) * f32::ln_1p(labour as f32)) as i32
}

fn schedule(reach: usize) -> Schedule {
    let food = (0..reach).map(|l| output(Good::Food, l)).collect();
    let clothes = (0..reach).map(|l| output(Good::Clothes, l)).collect();
    Schedule::new(food, clothes).unwrap()
}

fn money(world: &World) -> i32 {
    world.population().money_supply() + world.industry().money_supply()
}

/// Runs up to `days` days and returns how many were run to the end.
fn run(world: &mut World, prices: &mut Prices, days: usize) -> usize {
    for day in 0..days {
        let before = money(world);
        let pops = world.population().count();
        let factories = world.industry().count();
        let plan = schedule(10 * pops + 1);
        assert!(world.can_tick(&plan));
        prices.open();
        let complete = world.tick(&plan);
        for good in GOODS {
            let m = world.market().market(good);
            assert!(m.price >= 1);
            assert!(m.demand >= 0);
            assert!(m.supply >= 0);
        }
        assert_eq!(world.market().market(Good::Labour).supply, 10 * pops as i32);
        assert!(world.population().count() <= 2 * pops);
        assert!(world.industry().count() <= 2 * factories);
        if world.population().count() > 0 {
            assert_eq!(money(world), before);
        } else {
            assert!(money(world) <= before);
        }
        assert_eq!(complete, world.population().count() > 0 || world.industry().count() == 0);
        assert!(world.population().is_fit() && world.industry().is_fit());
        for i in 0..world.population().count() {
            let health = world.population().pop(i).health;
            assert!(health >= 1 && health <= 9);
        }
        if complete {
            for i in 0..world.industry().count() {
                assert!(world.industry().factory(i).days_closed < 5);
            }
            for good in [Good::Food, Good::Clothes] {
                assert!(world.market().market(good).supply >= 0);
            }
        }
        if !complete {
            return day;
        }
        let mut quotes = [0; 3];
        for good in GOODS {
            quotes[good.to_index()] = prices.close(good, world.pending(good));
        }
        world.close(quotes);
        assert_eq!(world.day(), day as i32 + 1);
        for good in GOODS {
            assert_eq!(world.market().price(good), quotes[good.to_index()]);
        }
    }
    days
}

#[test]
fn the_world_as_it_begins() {
    let world = World::new();
    assert_eq!(world.day(), 0);
    assert_eq!((INITIAL_POPS, INITIAL_FACTORIES, INITIAL_MONEY, INITIAL_HEALTH), (10, 10, 10_000, 10));
    assert_eq!(world.population().count(), 10);
    for i in 0..10 {
        assert_eq!(world.population().pop(i), Pop { money: 10_000, labour: 0, health: 10 });
        assert_eq!(
            world.industry().factory(i),
            Factory { good: Good::Food, money: 10_000, inventory: 0, days_closed: 0 }
        );
        assert_eq!(
            world.industry().factory(10 + i),
            Factory { good: Good::Clothes, money: 10_000, inventory: 0, days_closed: 0 }
        );
    }
    assert_eq!(world.industry().count(), 20);
    assert_eq!(world.industry().count_factories(Good::Food), 10);
    assert_eq!(world.industry().count_factories(Good::Clothes), 10);
    assert_eq!(money(&world), 300_000);
    for good in GOODS {
        assert_eq!(
            world.market().market(good),
            Market { price: 0, demand: 0, supply: 0, momentum: Trend::Rising }
        );
    }
}

#[test]
fn the_first_day() {
    let mut world = World::new();
    let plan = schedule(101);
    assert!(world.can_tick(&plan));
    assert!(world.tick(&plan));
    assert_eq!(world.day(), 0);
    // Nothing is in stock yet, so the consumers order and get nothing.
    assert_eq!(world.market().market(Good::Food), Market {
        price: 1,
        demand: 40_000,
        supply: {
            let mut made = 0;
            for i in 0..world.industry().count() {
                let f = world.industry().factory(i);
                if f.good == Good::Food {
                    made += f.inventory;
                }
            }
            made
        },
        momentum: Trend::Rising,
    });
    assert_eq!(world.market().market(Good::Clothes).demand, 20_000);
    assert_eq!(world.market().market(Good::Labour).supply, 100);
    assert_eq!(world.market().market(Good::Labour).demand, 160_000);
    assert_eq!(world.population().count(), 10);
    assert_eq!(world.population().money_supply(), 100_100);
    for i in 0..10 {
        assert_eq!(world.population().pop(i).health, 9);
    }
    assert_eq!(world.pending(Good::Food), Adjustment { trend: Trend::Rising, step: Step::Accelerate });
    assert_eq!(world.pending(Good::Labour), Adjustment { trend: Trend::Rising, step: Step::Accelerate });
    world.close([15, 15, 15]);
    assert_eq!(world.day(), 1);
    assert_eq!(world.market().price(Good::Labour), 15);
    assert_eq!(world.market().market(Good::Food).momentum, Trend::Rising);
}

#[test]
fn a_schedule_that_is_too_short_will_not_do() {
    let world = World::new();
    assert!(world.can_tick(&schedule(101)));
    assert!(!world.can_tick(&schedule(100)));
    assert!(!world.can_tick(&schedule(0)));
    let huge = Schedule::new(vec![i32::MAX; 101], vec![0; 101]).unwrap();
    assert!(!world.can_tick(&huge));
    let large = Schedule::new(vec![i32::MAX / 20; 101], vec![0; 101]).unwrap();
    assert!(world.can_tick(&large));
}

#[test]
fn money_is_kept_through_the_days() {
    for _ in 0..20 {
        let mut world = World::new();
        let mut prices = Prices::new();
        let days = run(&mut world, &mut prices, 60);
        if days == 60 {
            assert_eq!(money(&world), 300_000);
            assert_eq!(world.day(), 60);
        }
    }
}

#[test]
fn a_thousand_days() {
    let mut world = World::new();
    let mut prices = Prices::new();
    let days = run(&mut world, &mut prices, 1000);
    assert_eq!(world.day() as usize, days.min(1000));
    if days == 1000 {
        assert_eq!(money(&world), 300_000);
        assert!(world.population().count() > 0);
    }
    println!(
        "days {} pops {} factories {} prices {:?}",
        days,
        world.population().count(),
        world.industry().count(),
        prices.price
    );
}

fn plenty() -> World {
    let mut factories = Vec::new();
    for i in 0..6 {
        let good = if i % 2 == 0 { Good::Food } else { Good::Clothes };
        factories.push(Factory { good, money: 100 + i, inventory: 100_000, days_closed: 0 });
    }
    let pops = (0..5).map(|i| Pop { money: 1_000 + i, labour: 0, health: 5 }).collect();
    World::from_parts(
        MarketNetwork::new(),
        Population::from_pops(pops),
        Industry::from_factories(factories),
    )
    .unwrap()
}

#[test]
fn money_is_kept_in_a_world_of_plenty() {
    let mut world = plenty();
    let total = money(&world);
    assert_eq!(total, 5_010 + 615);
    let mut prices = Prices::new();
    let days = run(&mut world, &mut prices, 300);
    assert!(days >= 1);
    if world.population().count() > 0 {
        assert_eq!(money(&world), total);
    } else {
        assert!(money(&world) <= total);
    }
}

#[test]
fn no_world_with_debts_or_too_much_money() {
    let sound = |pops: Vec<Pop>, factories: Vec<Factory>| {
        World::from_parts(
            MarketNetwork::new(),
            Population::from_pops(pops),
            Industry::from_factories(factories),
        )
        .is_some()
    };
    let pop = |money| Pop { money, labour: 0, health: 5 };
    let factory = |good, money| Factory { good, money, inventory: 0, days_closed: 0 };
    assert!(sound(vec![], vec![]));
    assert!(sound(vec![pop(i32::MAX - 7)], vec![factory(Good::Food, 7)]));
    assert!(!sound(vec![pop(i32::MAX - 7)], vec![factory(Good::Food, 8)]));
    assert!(!sound(vec![pop(i32::MAX), pop(i32::MAX), pop(2)], vec![]));
    assert!(!sound(vec![pop(-1)], vec![]));
    assert!(!sound(vec![pop(1)], vec![factory(Good::Labour, 1)]));
    assert!(!sound(vec![Pop { money: 1, labour: -1, health: 5 }], vec![]));
    assert!(sound(vec![Pop { money: 1, labour: 1, health: i32::MIN }], vec![]));
}

#[test]
fn a_day_without_factories_cannot_be_run() {
    let world = World::from_parts(
        MarketNetwork::new(),
        Population::from_pops(vec![Pop { money: 1, labour: 0, health: 5 }]),
        Industry::from_factories(vec![]),
    )
    .unwrap();
    assert!(!world.can_tick(&schedule(11)));
    let mut empty = World::from_parts(
        MarketNetwork::new(),
        Population::from_pops(vec![]),
        Industry::from_factories(vec![]),
    )
    .unwrap();
    assert!(empty.can_tick(&schedule(1)));
    assert!(empty.tick(&schedule(1)));
    assert_eq!(empty.market().price(Good::Food), 1);
}

#[test]
fn the_last_consumer_dies_and_the_factories_stay_behind() {
    let mut world = World::from_parts(
        MarketNetwork::new(),
        Population::from_pops(vec![Pop { money: 50, labour: 0, health: 1 }]),
        Industry::from_factories(vec![Factory {
            good: Good::Food,
            money: 70,
            inventory: 0,
            days_closed: 0,
        }]),
    )
    .unwrap();
    let plan = schedule(11);
    assert!(world.can_tick(&plan));
    // There is nothing to buy: the consumer loses its last point of health.
    assert!(!world.tick(&plan));
    assert_eq!(world.population().count(), 0);
    assert_eq!(world.industry().count(), 1);
    assert_eq!(money(&world), 70);
    assert_eq!(world.market().market(Good::Food).demand, 20);
    assert_eq!(world.market().market(Good::Labour).demand, 0);
    assert!(!world.can_tick(&plan) || world.population().count() == 0);
}
