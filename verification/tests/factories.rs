use economy::bns::{buy_commodities, buy_labour, publish_for_sale, Purchase};
use economy::good::Good;
use economy::industry::{Factory, Industry, IndustryBuilder, FACTORY_COST};
use economy::market::MarketNetwork;
use economy::misc::Inheritance;
use economy::population::{Pop, Population};
use economy::production::Schedule;

fn pop(money: i32, labour: i32, health: i32) -> Pop {
    Pop { money, labour, health }
}

fn pops_of(population: &Population) -> Vec<Pop> {
    (0..population.count()).map(|i| population.pop(i)).collect()
}

fn factories_of(industry: &Industry) -> Vec<Factory> {
    (0..industry.count()).map(|i| industry.factory(i)).collect()
}

fn factory(good: Good, money: i32, inventory: i32, days_closed: i32) -> Factory {
    Factory { good, money, inventory, days_closed }
}

fn open_market(food: i32, clothes: i32, labour: i32) -> MarketNetwork {
    let mut market = MarketNetwork::new();
    market.close([food, clothes, labour]);
    market.open();
    market
}

/// What the rule of production gives, in fractions.
fn output(good: Good, labour: i32) -> i32 {
    ((good.yield_percent() as f32 / 100.0) * f32::ln_1p(labour as f32)) as i32
}

fn schedule(reach: i32) -> Schedule {
    let food = (0..reach).map(|l| output(Good::Food, l)).collect();
    let clothes = (0..reach).map(|l| output(Good::Clothes, l)).collect();
    Schedule::new(food, clothes).unwrap()
}

#[test]
fn the_rule_of_production_in_numbers() {
    let food: Vec<i32> = (0..12).map(|l| output(Good::Food, l)).collect();
    assert_eq!(food, vec![0, 1, 2, 2, 3, 3, 3, 4, 4, 4, 4, 4]);
    let clothes: Vec<i32> = (0..12).map(|l| output(Good::Clothes, l)).collect();
    assert_eq!(clothes, vec![0, 0, 0, 0, 1, 1, 1, 1, 1, 1, 1, 1]);
    assert_eq!(output(Good::Food, 100), 9);
    assert_eq!(output(Good::Clothes, 100), 3);
}

#[test]
fn a_schedule_says_what_it_was_given() {
    let s = Schedule::new(vec![0, 1, 2, 2, 3], vec![0, 0, 7]).unwrap();
    assert_eq!(s.output(Good::Food, 0), 0);
    assert_eq!(s.output(Good::Food, 4), 3);
    assert_eq!(s.output(Good::Clothes, 2), 7);
    assert_eq!(s.output(Good::Clothes, 1), 0);
    assert_eq!(s.max_output(), 7);
    assert_eq!(s.reach(), 3);
    let empty = Schedule::new(vec![], vec![4]).unwrap();
    assert_eq!(empty.reach(), 0);
    assert_eq!(empty.max_output(), 4);
    let flat = Schedule::new(vec![0, 0], vec![0, 0, 0]).unwrap();
    assert_eq!(flat.max_output(), 0);
    assert_eq!(flat.reach(), 2);
}

#[test]
fn no_schedule_with_a_negative_entry() {
    assert!(Schedule::new(vec![0, -1], vec![0]).is_none());
    assert!(Schedule::new(vec![0, 1], vec![0, 3, -2]).is_none());
    assert!(Schedule::new(vec![i32::MIN], vec![]).is_none());
    assert!(Schedule::new(vec![], vec![]).is_some());
}

#[test]
fn a_new_factory_has_made_nothing() {
    assert_eq!(Factory::new(Good::Food, 10_000), factory(Good::Food, 10_000, 0, 0));
    assert_eq!(Factory::new(Good::Clothes, 0), factory(Good::Clothes, 0, 0, 0));
    assert_eq!(FACTORY_COST, 5000);
}

#[test]
fn builder_lays_out_food_then_clothes() {
    let industry = IndustryBuilder::new()
        .with(2, Factory::new(Good::Clothes, 7))
        .with(3, Factory::new(Good::Food, 9))
        .build();
    assert_eq!(
        factories_of(&industry),
        vec![
            factory(Good::Food, 9, 0, 0),
            factory(Good::Food, 9, 0, 0),
            factory(Good::Food, 9, 0, 0),
            factory(Good::Clothes, 7, 0, 0),
            factory(Good::Clothes, 7, 0, 0),
        ]
    );
    assert_eq!(industry.count_factories(Good::Food), 3);
    assert_eq!(industry.count_factories(Good::Clothes), 2);
    assert_eq!(industry.count_factories(Good::Labour), 0);
    assert_eq!(industry.money_supply(), 41);
}

#[test]
fn builder_keeps_the_last_word_for_a_good() {
    let industry = IndustryBuilder::new()
        .with(5, Factory::new(Good::Food, 1))
        .with(1, Factory::new(Good::Food, 2))
        .build();
    assert_eq!(factories_of(&industry), vec![factory(Good::Food, 2, 0, 0)]);
    assert_eq!(IndustryBuilder::new().build().count(), 0);
}

#[test]
fn factories_sell_in_a_circle_and_pass_by_other_goods() {
    let row = vec![
        factory(Good::Food, 0, 4, 0),
        factory(Good::Clothes, 0, 50, 1),
        factory(Good::Food, 0, 3, 2),
        factory(Good::Food, 0, 6, 3),
    ];
    let mut industry = Industry::from_factories(row.clone());
    let purchase = industry.buy_from(2, 8, Good::Food, 5);
    assert_eq!(purchase, Purchase { amount: 8, cost: 40 });
    assert_eq!(
        factories_of(&industry),
        vec![
            factory(Good::Food, 0, 4, 0),
            factory(Good::Clothes, 0, 50, 1),
            factory(Good::Food, 15, 0, 2),
            factory(Good::Food, 25, 1, 3),
        ]
    );
    let mut industry = Industry::from_factories(row.clone());
    let purchase = industry.buy_from(3, 8, Good::Food, 5);
    assert_eq!(purchase, Purchase { amount: 8, cost: 40 });
    assert_eq!(
        factories_of(&industry),
        vec![
            factory(Good::Food, 10, 2, 0),
            factory(Good::Clothes, 0, 50, 1),
            factory(Good::Food, 0, 3, 2),
            factory(Good::Food, 30, 0, 3),
        ]
    );
}

#[test]
fn factories_sell_the_same_wherever_the_circle_starts() {
    for offset in 0..4 {
        let mut industry = Industry::from_factories(vec![
            factory(Good::Food, 0, 4, 0),
            factory(Good::Clothes, 0, 50, 1),
            factory(Good::Food, 0, 3, 2),
            factory(Good::Food, 0, 6, 3),
        ]);
        assert_eq!(
            industry.buy_from(offset, 20, Good::Food, 2),
            Purchase { amount: 13, cost: 26 }
        );
        assert_eq!(industry.inventory(Good::Food), 0);
        assert_eq!(industry.inventory(Good::Clothes), 50);
        assert_eq!(industry.money_supply(), 26);
    }
    for _ in 0..50 {
        let mut industry = Industry::from_factories(vec![
            factory(Good::Food, 0, 4, 0),
            factory(Good::Clothes, 0, 50, 1),
            factory(Good::Food, 0, 3, 2),
        ]);
        assert_eq!(industry.buy(5, Good::Clothes, 3), Purchase { amount: 5, cost: 15 });
        assert_eq!(industry.factory(1), factory(Good::Clothes, 15, 45, 1));
        assert_eq!(industry.buy(5, Good::Food, 3), Purchase { amount: 5, cost: 15 });
        assert_eq!(industry.inventory(Good::Food), 2);
    }
}

#[test]
fn trades_are_counted_on_the_market() {
    let mut market = open_market(4, 6, 3);
    let mut industry = Industry::from_factories(vec![factory(Good::Clothes, 1, 2, 0)]);
    let purchase = buy_commodities(&mut industry, &mut market, Good::Clothes, 9);
    assert_eq!(purchase, Purchase { amount: 2, cost: 12 });
    assert_eq!(market.market(Good::Clothes).demand, 9);
    assert_eq!(industry.factory(0), factory(Good::Clothes, 13, 0, 0));
    let mut population = Population::from_pops(vec![pop(0, 10, 5), pop(0, 10, 5)]);
    let purchase = buy_labour(&mut population, &mut market, 15);
    assert_eq!(purchase, Purchase { amount: 15, cost: 45 });
    assert_eq!(market.market(Good::Labour).demand, 15);
    assert_eq!(population.money_supply(), 45);
    publish_for_sale(&mut market, Good::Food, 8);
    publish_for_sale(&mut market, Good::Food, 1);
    assert_eq!(market.market(Good::Food).supply, 9);
    assert_eq!(market.market(Good::Food).demand, 0);
    assert_eq!(Purchase::default(), Purchase { amount: 0, cost: 0 });
}

#[test]
fn shuffle_keeps_the_factories_and_changes_their_order() {
    let row: Vec<Factory> = (0..40).map(|i| factory(Good::Food, i, 2 * i, 0)).collect();
    let mut industry = Industry::from_factories(row.clone());
    let mut moved = false;
    for _ in 0..20 {
        industry.shuffle();
        let after = factories_of(&industry);
        let mut sorted = after.clone();
        sorted.sort_by_key(|f| f.money);
        assert_eq!(sorted, row);
        moved = moved || after != row;
    }
    assert!(moved);
    assert_eq!(industry.money_supply(), 780);
}

#[test]
fn liquidate_moves_the_last_into_the_gap() {
    let mut industry = Industry::from_factories(vec![
        factory(Good::Food, 1, 0, 0),
        factory(Good::Food, 2, 0, 0),
        factory(Good::Clothes, 3, 0, 0),
    ]);
    assert_eq!(industry.liquidate(0), Inheritance(1));
    assert_eq!(
        factories_of(&industry),
        vec![factory(Good::Clothes, 3, 0, 0), factory(Good::Food, 2, 0, 0)]
    );
}

#[test]
fn a_factory_founds_one_like_itself() {
    let mut industry = Industry::from_factories(vec![
        factory(Good::Food, 1, 0, 0),
        factory(Good::Clothes, 12_000, 33, 2),
    ]);
    industry.build(1);
    assert_eq!(
        factories_of(&industry),
        vec![
            factory(Good::Food, 1, 0, 0),
            factory(Good::Clothes, 7_000, 33, 2),
            factory(Good::Clothes, 5_000, 0, 0),
        ]
    );
}

#[test]
fn employ_pays_and_lets_the_inventory_decay() {
    let mut food = factory(Good::Food, 100, 55, 3);
    assert_eq!(food.employ(Purchase { amount: 4, cost: 12 }), 4);
    assert_eq!(food, factory(Good::Food, 88, 49, 0));
    let mut clothes = factory(Good::Clothes, 100, 55, 3);
    assert_eq!(clothes.employ(Purchase { amount: 1, cost: 12 }), 1);
    assert_eq!(clothes, factory(Good::Clothes, 88, 53, 0));
    let mut idle = factory(Good::Clothes, 100, 55, 3);
    assert_eq!(idle.employ(Purchase { amount: 0, cost: 0 }), 0);
    assert_eq!(idle, factory(Good::Clothes, 100, 55, 4));
    let mut full = factory(Good::Clothes, 0, i32::MAX, 0);
    full.employ(Purchase { amount: 1, cost: 0 });
    assert_eq!(full.inventory, 2_104_533_974);
}

#[test]
fn restock_offers_the_whole_inventory() {
    let mut market = open_market(1, 1, 1);
    let mut f = factory(Good::Food, 5, 49, 0);
    f.restock(&mut market, 3);
    assert_eq!(f, factory(Good::Food, 5, 52, 0));
    assert_eq!(market.market(Good::Food).supply, 52);
    assert_eq!(market.market(Good::Clothes).supply, 0);
}

#[test]
fn a_working_day_of_a_factory() {
    let mut market = open_market(1, 1, 3);
    let mut population =
        Population::from_pops(vec![pop(0, 10, 5), pop(0, 10, 5), pop(0, 10, 5)]);
    let mut f = factory(Good::Food, 100, 55, 2);
    f.tick(&mut population, &mut market, &schedule(31));
    // orders 80 / 3 = 26 units of labour and gets them for 78;
    // keeps 49 of 55 and makes 2 ln 27 = 6.59
    assert_eq!(f, factory(Good::Food, 22, 55, 0));
    assert_eq!(market.market(Good::Labour).demand, 26);
    assert_eq!(market.market(Good::Food).supply, 55);
    assert_eq!(market.market(Good::Clothes).supply, 0);
    assert_eq!(population.money_supply(), 78);
    let left: i32 = pops_of(&population).iter().map(|p| p.labour).sum();
    assert_eq!(left, 4);
}

#[test]
fn a_factory_without_labour_stays_closed() {
    let mut market = open_market(1, 1, 3);
    let mut population = Population::from_pops(vec![pop(0, 0, 5)]);
    let mut f = factory(Good::Clothes, 100, 55, 2);
    f.tick(&mut population, &mut market, &schedule(1));
    assert_eq!(f, factory(Good::Clothes, 100, 55, 3));
    assert_eq!(market.market(Good::Labour).demand, 26);
    // idle as it is, it offers all that it has
    assert_eq!(market.market(Good::Clothes).supply, 55);
    assert_eq!(market.market(Good::Food).supply, 0);
    let mut poor = factory(Good::Food, 3, 9, 0);
    let mut population = Population::from_pops(vec![pop(0, 10, 5)]);
    poor.tick(&mut population, &mut market, &schedule(11));
    // 80 hundredths of 3 are 2, which buys no unit at 3
    assert_eq!(poor, factory(Good::Food, 3, 9, 1));
    assert_eq!(pops_of(&population), vec![pop(0, 10, 5)]);
    assert_eq!(market.market(Good::Food).supply, 9);
    assert_eq!(market.market(Good::Clothes).supply, 55);
}

#[test]
fn an_idle_factory_offers_its_inventory_every_day() {
    let mut market = open_market(1, 1, 1);
    let mut population = Population::from_pops(vec![pop(0, 0, 5)]);
    let mut f = factory(Good::Food, 0, 7, 0);
    for day in 1..=3 {
        market.open();
        f.tick(&mut population, &mut market, &schedule(1));
        assert_eq!(f, factory(Good::Food, 0, 7, day));
        assert_eq!(market.market(Good::Food).supply, 7);
    }
}

#[test]
fn factories_hire_one_after_another() {
    let mut market = open_market(1, 1, 2);
    let mut population = Population::from_pops(vec![pop(0, 10, 5), pop(0, 10, 5)]);
    let mut industry = Industry::from_factories(vec![
        factory(Good::Food, 30, 10, 0),
        factory(Good::Clothes, 50, 100, 4),
        factory(Good::Food, 50, 10, 4),
    ]);
    assert!(industry.is_fit());
    industry.operate(&mut population, &mut market, &schedule(21));
    // orders 12, 20 and 20: the first gets 12, the second 8, the third none
    assert_eq!(
        factories_of(&industry),
        vec![
            factory(Good::Food, 6, 9 + 5, 0),
            factory(Good::Clothes, 34, 98 + 1, 0),
            factory(Good::Food, 50, 10, 5),
        ]
    );
    assert_eq!(market.market(Good::Labour).demand, 52);
    // the idle factory offers its ten units as well
    assert_eq!(market.market(Good::Food).supply, 14 + 10);
    assert_eq!(market.market(Good::Clothes).supply, 99);
    assert_eq!(population.money_supply(), 40);
    assert_eq!(pops_of(&population).iter().map(|p| p.labour).sum::<i32>(), 0);
}

#[test]
fn turnover_closes_the_idle_and_expands_the_rich() {
    for _ in 0..20 {
        let mut population = Population::from_pops(vec![pop(1, 0, 5), pop(2, 0, 5)]);
        let mut industry = Industry::from_factories(vec![
            factory(Good::Food, 70, 3, 5),
            factory(Good::Clothes, 10_000, 8, 0),
            factory(Good::Food, 9_999, 4, 4),
        ]);
        industry.turnover(&mut population);
        // the first is closed; the second founds one, which stands at the end
        assert_eq!(
            factories_of(&industry),
            vec![
                factory(Good::Clothes, 5_000, 8, 0),
                factory(Good::Food, 9_999, 4, 4),
                factory(Good::Clothes, 5_000, 0, 0),
            ]
        );
        assert_eq!(population.money_supply(), 73);
        let after = pops_of(&population);
        assert!(
            after == vec![pop(71, 0, 5), pop(2, 0, 5)]
                || after == vec![pop(1, 0, 5), pop(72, 0, 5)]
        );
    }
}

#[test]
fn turnover_closes_every_factory_that_has_long_been_idle() {
    let mut population = Population::from_pops(vec![pop(0, 0, 5)]);
    let mut industry = Industry::from_factories(vec![
        factory(Good::Food, 20_000, 0, 0),
        factory(Good::Food, 5, 0, 5),
        factory(Good::Clothes, 7, 0, 9),
    ]);
    industry.turnover(&mut population);
    assert_eq!(
        factories_of(&industry),
        vec![factory(Good::Food, 15_000, 0, 0), factory(Good::Food, 5_000, 0, 0)]
    );
    assert_eq!(pops_of(&population), vec![pop(12, 0, 5)]);
}

#[test]
fn turnover_leaves_no_factory_with_five_idle_days() {
    let row: Vec<Factory> = (0..40)
        .map(|i| factory(Good::Food, 3_000 * (i % 5), i, i % 7))
        .collect();
    let before: i32 = row.iter().map(|f| f.money).sum();
    let closed = row.iter().filter(|f| f.days_closed >= 5).count();
    let rich = row.iter().filter(|f| f.days_closed < 5 && f.money >= 10_000).count();
    let mut industry = Industry::from_factories(row);
    let mut population = Population::from_pops(vec![pop(0, 0, 5), pop(0, 0, 5)]);
    industry.turnover(&mut population);
    let after = factories_of(&industry);
    assert!(after.iter().all(|f| f.days_closed < 5));
    assert_eq!(after.len(), 40 - closed + rich);
    assert_eq!(after.iter().filter(|f| *f == &factory(Good::Food, 5_000, 0, 0)).count(), rich);
    assert!(industry.is_fit());
    assert_eq!(industry.money_supply() + population.money_supply(), before);
}

#[test]
fn liquidation_without_consumers_loses_the_money() {
    let mut population = Population::new(0, pop(0, 0, 0));
    let mut industry = Industry::from_factories(vec![
        factory(Good::Food, 70, 3, 5),
        factory(Good::Clothes, 30, 8, 1),
    ]);
    industry.turnover(&mut population);
    assert_eq!(factories_of(&industry), vec![factory(Good::Clothes, 30, 8, 1)]);
    assert_eq!(population.count(), 0);
    assert_eq!(population.money_supply(), 0);
    assert_eq!(industry.money_supply(), 30);
}

#[test]
fn a_day_of_the_factories_keeps_the_money_in_the_economy() {
    for _ in 0..30 {
        let mut market = open_market(1, 1, 4);
        let mut population =
            Population::from_pops(vec![pop(3, 10, 5), pop(4, 10, 5), pop(5, 10, 5)]);
        let mut industry = Industry::from_factories(vec![
            factory(Good::Food, 12_000, 10, 0),
            factory(Good::Clothes, 40, 100, 4),
            factory(Good::Food, 2, 10, 4),
        ]);
        industry.tick(&mut population, &mut market, &schedule(31));
        assert_eq!(population.money_supply() + industry.money_supply(), 12_054);
        // orders 2400, 8 and 0; 30 units of labour are hired in all
        assert_eq!(market.market(Good::Labour).demand, 2408);
        // wages of 120, and what the factories that were closed have left:
        // the one without money for sure, the other if it came too late to hire
        let closed = population.money_supply() - 12 - 120;
        assert!([2, 42].contains(&closed));
        assert_eq!(population.count(), 3);
        assert_eq!(pops_of(&population).iter().map(|p| p.labour).sum::<i32>(), 0);
        let after = factories_of(&industry);
        assert_eq!(after.len(), if closed == 2 { 3 } else { 2 });
        assert!(after.iter().all(|f| f.days_closed < 5));
        assert_eq!(after.iter().filter(|f| f.money == 5_000).count(), 1);
        // every factory offers what it has, idle or not
        let made = output(Good::Food, if closed == 2 { 22 } else { 30 });
        assert_eq!(market.market(Good::Food).supply, 9 + made + 10);
    }
}

#[test]
fn fitness_of_factories() {
    assert!(Industry::from_factories(vec![factory(Good::Food, 0, 0, i32::MAX - 1)]).is_fit());
    assert!(!Industry::from_factories(vec![factory(Good::Labour, 0, 0, 0)]).is_fit());
    assert!(!Industry::from_factories(vec![factory(Good::Food, -1, 0, 0)]).is_fit());
    assert!(!Industry::from_factories(vec![factory(Good::Food, 0, -1, 0)]).is_fit());
    assert!(!Industry::from_factories(vec![factory(Good::Food, 0, 0, -1)]).is_fit());
    assert!(!Industry::from_factories(vec![factory(Good::Food, 0, 0, i32::MAX)]).is_fit());
    assert!(Industry::from_factories(vec![]).is_fit());
}
