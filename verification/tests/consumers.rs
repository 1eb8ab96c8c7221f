use economy::bns::Purchase;
use economy::good::Good;
use economy::industry::{Factory, Industry};
use economy::market::MarketNetwork;
use economy::misc::Inheritance;
use economy::population::{Pop, Population};

fn pop(money: i32, labour: i32, health: i32) -> Pop {
    Pop { money, labour, health }
}

fn pops_of(population: &Population) -> Vec<Pop> {
    (0..population.count()).map(|i| population.pop(i)).collect()
}

fn open_market(food: i32, clothes: i32, labour: i32) -> MarketNetwork {
    let mut market = MarketNetwork::new();
    market.close([food, clothes, labour]);
    market.open();
    market
}

fn factory(good: Good, money: i32, inventory: i32) -> Factory {
    Factory { good, money, inventory, days_closed: 0 }
}

#[test]
fn scan_from_the_middle_fills_the_order() {
    let mut population =
        Population::from_pops(vec![pop(1, 0, 5), pop(2, 5, 5), pop(3, 0, 5)]);
    let purchase = population.buy_labour_from(1, 5, 7);
    assert_eq!(purchase, Purchase { amount: 5, cost: 35 });
    assert_eq!(pops_of(&population), vec![pop(1, 0, 5), pop(37, 0, 5), pop(3, 0, 5)]);
}

#[test]
fn what_an_order_gets_does_not_depend_on_the_start() {
    for offset in 0..3 {
        let mut population =
            Population::from_pops(vec![pop(1, 0, 5), pop(2, 5, 5), pop(3, 0, 5)]);
        let purchase = population.buy_labour_from(offset, 5, 7);
        assert_eq!(purchase, Purchase { amount: 5, cost: 35 });
        assert_eq!(pops_of(&population), vec![pop(1, 0, 5), pop(37, 0, 5), pop(3, 0, 5)]);
    }
    for offset in 0..4 {
        let mut population = Population::from_pops(vec![
            pop(0, 4, 5),
            pop(0, 3, 5),
            pop(0, 6, 5),
            pop(0, 2, 5),
        ]);
        let purchase = population.buy_labour_from(offset, 9, 3);
        assert_eq!(purchase, Purchase { amount: 9, cost: 27 });
        assert_eq!(population.money_supply(), 27);
        let left: i32 = pops_of(&population).iter().map(|p| p.labour).sum();
        assert_eq!(left, 6);
    }
}

#[test]
fn scan_goes_round_the_end_of_the_row() {
    let mut population = Population::from_pops(vec![
        pop(0, 4, 5),
        pop(0, 3, 5),
        pop(0, 6, 5),
        pop(0, 2, 5),
    ]);
    let purchase = population.buy_labour_from(2, 9, 3);
    assert_eq!(purchase, Purchase { amount: 9, cost: 27 });
    assert_eq!(
        pops_of(&population),
        vec![pop(3, 3, 5), pop(0, 3, 5), pop(18, 0, 5), pop(6, 0, 5)]
    );
}

#[test]
fn an_order_gets_no_more_than_there_is() {
    let mut population = Population::from_pops(vec![pop(0, 4, 5), pop(0, 3, 5)]);
    let purchase = population.buy_labour_from(1, 100, 2);
    assert_eq!(purchase, Purchase { amount: 7, cost: 14 });
    assert_eq!(pops_of(&population), vec![pop(8, 0, 5), pop(6, 0, 5)]);
}

#[test]
fn an_order_for_nothing_changes_nothing() {
    let mut population = Population::from_pops(vec![pop(1, 4, 5), pop(2, 3, 5)]);
    let purchase = population.buy_labour_from(0, 0, 9);
    assert_eq!(purchase, Purchase { amount: 0, cost: 0 });
    assert_eq!(pops_of(&population), vec![pop(1, 4, 5), pop(2, 3, 5)]);
}

#[test]
fn scan_from_a_start_drawn_by_chance() {
    let mut seen = [false; 4];
    for _ in 0..400 {
        let mut population = Population::from_pops(vec![
            pop(0, 4, 5),
            pop(0, 3, 5),
            pop(0, 6, 5),
            pop(0, 2, 5),
        ]);
        let purchase = population.buy_labour(9, 3);
        assert_eq!(purchase, Purchase { amount: 9, cost: 27 });
        assert_eq!(population.count(), 4);
        assert_eq!(population.money_supply(), 27);
        let after = pops_of(&population);
        let outcomes = [
            vec![pop(12, 0, 5), pop(9, 0, 5), pop(6, 4, 5), pop(0, 2, 5)],
            vec![pop(0, 4, 5), pop(9, 0, 5), pop(18, 0, 5), pop(0, 2, 5)],
            vec![pop(3, 3, 5), pop(0, 3, 5), pop(18, 0, 5), pop(6, 0, 5)],
            vec![pop(12, 0, 5), pop(9, 0, 5), pop(0, 6, 5), pop(6, 0, 5)],
        ];
        let which = outcomes.iter().position(|outcome| *outcome == after);
        assert!(which.is_some());
        seen[which.unwrap()] = true;
    }
    assert_eq!(seen, [true; 4]);
}

#[test]
fn new_population_is_copies_of_one() {
    let population = Population::new(4, pop(10, 2, 7));
    assert_eq!(population.count(), 4);
    assert_eq!(pops_of(&population), vec![pop(10, 2, 7); 4]);
    assert_eq!(population.money_supply(), 40);
    let nobody = Population::new(0, pop(10, 2, 7));
    assert_eq!(nobody.count(), 0);
    assert_eq!(nobody.money_supply(), 0);
}

#[test]
fn money_supply_may_pass_through_large_sums() {
    let population = Population::from_pops(vec![
        pop(i32::MAX, 0, 1),
        pop(i32::MAX, 0, 1),
        pop(-i32::MAX, 0, 1),
        pop(-5, 0, 1),
    ]);
    assert_eq!(population.money_supply(), i32::MAX - 5);
}

#[test]
fn reproduction_hands_on_the_money_and_halves_the_health() {
    let mut population = Population::from_pops(vec![pop(100, 10, 10)]);
    population.reproduce(0);
    assert_eq!(pops_of(&population), vec![pop(0, 10, 5), pop(100, 0, 3)]);
}

#[test]
fn halving_rounds_towards_zero() {
    let mut population = Population::from_pops(vec![pop(8, 1, 11), pop(9, 2, -7)]);
    population.reproduce(0);
    population.reproduce(1);
    assert_eq!(
        pops_of(&population),
        vec![pop(0, 1, 5), pop(0, 2, -3), pop(8, 0, 3), pop(9, 0, 3)]
    );
}

#[test]
fn kill_moves_the_last_into_the_gap() {
    let mut population =
        Population::from_pops(vec![pop(1, 0, 1), pop(2, 0, 2), pop(3, 0, 3), pop(4, 0, 4)]);
    assert_eq!(population.kill(1), Inheritance(2));
    assert_eq!(pops_of(&population), vec![pop(1, 0, 1), pop(4, 0, 4), pop(3, 0, 3)]);
    assert_eq!(population.kill(2), Inheritance(3));
    assert_eq!(pops_of(&population), vec![pop(1, 0, 1), pop(4, 0, 4)]);
}

#[test]
fn an_heir_gets_the_whole_inheritance() {
    let mut heir = pop(5, 1, 2);
    heir.inherit(Inheritance(37));
    assert_eq!(heir, pop(42, 1, 2));
}

#[test]
fn inheritance_goes_to_one_consumer() {
    let mut seen = [false; 3];
    for _ in 0..200 {
        let mut population =
            Population::from_pops(vec![pop(1, 0, 1), pop(2, 0, 2), pop(3, 0, 3)]);
        population.distribute_inheritance(Inheritance(10));
        let after = pops_of(&population);
        assert_eq!(population.money_supply(), 16);
        let heirs: Vec<usize> = (0..3).filter(|&i| after[i].money != (i as i32) + 1).collect();
        assert_eq!(heirs.len(), 1);
        assert_eq!(after[heirs[0]].money, heirs[0] as i32 + 11);
        seen[heirs[0]] = true;
    }
    assert_eq!(seen, [true; 3]);
}

#[test]
fn inheritance_without_consumers_is_lost() {
    let mut population = Population::new(0, pop(0, 0, 0));
    population.distribute_inheritance(Inheritance(10));
    assert_eq!(population.count(), 0);
    assert_eq!(population.money_supply(), 0);
}

#[test]
fn settle_pays_and_rewards_enough() {
    let mut fed = pop(100, 3, 4);
    fed.settle(Purchase { amount: 2, cost: 30 }, Purchase { amount: 1, cost: 12 });
    assert_eq!(fed, pop(58, 10, 5));
    let mut hungry = pop(100, 3, 4);
    hungry.settle(Purchase { amount: 1, cost: 15 }, Purchase { amount: 5, cost: 60 });
    assert_eq!(hungry, pop(25, 10, 3));
    let mut bare = pop(100, 3, 4);
    bare.settle(Purchase { amount: 9, cost: 9 }, Purchase { amount: 0, cost: 0 });
    assert_eq!(bare, pop(91, 10, 3));
}

#[test]
fn a_consumer_spends_fixed_parts_of_its_money() {
    let mut industry = Industry::from_factories(vec![
        factory(Good::Food, 0, 100),
        factory(Good::Clothes, 0, 100),
    ]);
    let mut market = open_market(7, 3, 1);
    let mut consumer = pop(1000, 0, 4);
    consumer.tick(&mut industry, &mut market);
    // 400 / 7 = 57 units of food for 399, 200 / 3 = 66 units of clothes for 198
    assert_eq!(consumer, pop(1000 - 399 - 198, 10, 5));
    assert_eq!(industry.factory(0), factory(Good::Food, 399, 43));
    assert_eq!(industry.factory(1), factory(Good::Clothes, 198, 34));
    assert_eq!(market.market(Good::Food).demand, 57);
    assert_eq!(market.market(Good::Clothes).demand, 66);
    assert_eq!(market.market(Good::Labour).supply, 10);
    assert_eq!(market.market(Good::Labour).demand, 0);
    assert_eq!(market.market(Good::Food).supply, 0);
}

#[test]
fn a_consumer_that_gets_too_little_loses_health() {
    let mut industry = Industry::from_factories(vec![
        factory(Good::Food, 5, 1),
        factory(Good::Clothes, 5, 100),
    ]);
    let mut market = open_market(2, 2, 1);
    let mut consumer = pop(100, 3, 4);
    consumer.tick(&mut industry, &mut market);
    // orders 20 units of food and gets 1, orders 10 units of clothes and gets 10
    assert_eq!(consumer, pop(100 - 2 - 20, 10, 3));
    assert_eq!(industry.factory(0), factory(Good::Food, 7, 0));
    assert_eq!(industry.factory(1), factory(Good::Clothes, 25, 90));
    assert_eq!(market.market(Good::Food).demand, 20);
    assert_eq!(market.market(Good::Clothes).demand, 10);
}

#[test]
fn who_comes_first_gets_first() {
    let mut industry = Industry::from_factories(vec![
        factory(Good::Food, 0, 5),
        factory(Good::Clothes, 0, 2),
    ]);
    let mut market = open_market(10, 10, 1);
    let mut population =
        Population::from_pops(vec![pop(100, 0, 4), pop(100, 0, 4), pop(100, 0, 4)]);
    population.trade(&mut industry, &mut market);
    // each orders 4 units of food and 2 of clothes
    assert_eq!(
        pops_of(&population),
        vec![pop(40, 10, 5), pop(90, 10, 3), pop(100, 10, 3)]
    );
    assert_eq!(industry.factory(0), factory(Good::Food, 50, 0));
    assert_eq!(industry.factory(1), factory(Good::Clothes, 20, 0));
    assert_eq!(market.market(Good::Food).demand, 12);
    assert_eq!(market.market(Good::Clothes).demand, 6);
    assert_eq!(market.market(Good::Labour).supply, 30);
    assert_eq!(population.money_supply() + industry.money_supply(), 300);
}

#[test]
fn turnover_leaves_the_ordinary_alone() {
    let before = vec![pop(1, 10, 1), pop(2, 10, 9), pop(3, 10, 5)];
    let mut population = Population::from_pops(before.clone());
    population.turnover();
    assert_eq!(pops_of(&population), before);
}

#[test]
fn turnover_gives_the_healthy_a_child() {
    let mut population = Population::from_pops(vec![pop(100, 10, 10), pop(7, 10, 4)]);
    population.turnover();
    assert_eq!(
        pops_of(&population),
        vec![pop(0, 10, 5), pop(7, 10, 4), pop(100, 0, 3)]
    );
}

#[test]
fn turnover_removes_the_dead_and_passes_on_their_money() {
    for _ in 0..20 {
        let mut population =
            Population::from_pops(vec![pop(5, 10, 0), pop(7, 10, 4), pop(9, 10, -3)]);
        population.turnover();
        assert_eq!(pops_of(&population), vec![pop(21, 10, 4)]);
    }
}

#[test]
fn turnover_removes_every_dead_consumer() {
    let mut population =
        Population::from_pops(vec![pop(5, 10, 0), pop(7, 10, 4), pop(9, 10, 0)]);
    population.turnover();
    assert_eq!(pops_of(&population), vec![pop(21, 10, 4)]);
}

#[test]
fn turnover_after_a_birth_still_removes_the_dead() {
    // The first has a child; the two behind it are dead and leave it all
    // they have, which the child gets with the rest.
    let mut population =
        Population::from_pops(vec![pop(50, 10, 12), pop(8, 10, 0), pop(9, 10, -1)]);
    population.turnover();
    assert_eq!(pops_of(&population), vec![pop(0, 10, 6), pop(67, 0, 3)]);
    let mut population =
        Population::from_pops(vec![pop(1, 10, 10), pop(2, 10, 0), pop(3, 10, 0)]);
    population.turnover();
    assert_eq!(pops_of(&population), vec![pop(0, 10, 5), pop(6, 0, 3)]);
}

#[test]
fn turnover_leaves_nobody_without_health() {
    for _ in 0..20 {
        let row: Vec<Pop> = (0..60).map(|i| pop(10 * i, i, (i * 7) % 23 - 4)).collect();
        let before: i32 = row.iter().map(|p| p.money).sum();
        let dead = row.iter().filter(|p| p.health <= 0).count();
        let healthy = row.iter().filter(|p| p.health >= 10).count();
        let mut population = Population::from_pops(row);
        population.turnover();
        let after = pops_of(&population);
        assert!(after.iter().all(|p| p.health >= 1 && p.health <= 9));
        assert_eq!(after.len(), 60 - dead + healthy);
        assert_eq!(after.iter().filter(|p| p.health == 3 && p.labour == 0).count(), healthy);
        assert_eq!(population.money_supply(), before);
        assert!(population.is_fit());
    }
}

#[test]
fn bequests_go_whole_to_consumers() {
    for _ in 0..50 {
        let mut population = Population::from_pops(vec![pop(1, 0, 1), pop(2, 0, 2)]);
        population.hand_out(&vec![10, 0, 7]);
        let after = pops_of(&population);
        assert_eq!(population.money_supply(), 20);
        assert!([1, 8, 11, 18].contains(&after[0].money));
        assert_eq!((after[0].health, after[1].health), (1, 2));
    }
    let mut nobody = Population::new(0, pop(0, 0, 0));
    nobody.hand_out(&vec![10, 7]);
    assert_eq!(nobody.count(), 0);
}

#[test]
fn turnover_of_the_last_consumer_loses_its_money() {
    let mut population = Population::from_pops(vec![pop(5, 10, 0)]);
    population.turnover();
    assert_eq!(population.count(), 0);
    assert_eq!(population.money_supply(), 0);
}

#[test]
fn a_day_of_the_consumers_keeps_the_money_in_the_economy() {
    for _ in 0..30 {
        let mut industry = Industry::from_factories(vec![
            factory(Good::Food, 10, 9),
            factory(Good::Clothes, 20, 3),
            factory(Good::Food, 30, 2),
        ]);
        let mut market = open_market(3, 4, 2);
        let mut population = Population::from_pops(vec![
            pop(100, 0, 9),
            pop(50, 0, 1),
            pop(0, 0, 1),
            pop(75, 0, 9),
        ]);
        assert!(population.is_fit());
        population.tick(&mut industry, &mut market);
        assert_eq!(population.money_supply() + industry.money_supply(), 285);
        // orders: food 13 + 6 + 0 + 10, clothes 5 + 2 + 0 + 3
        assert_eq!(market.market(Good::Food).demand, 29);
        assert_eq!(market.market(Good::Clothes).demand, 10);
        assert_eq!(market.market(Good::Labour).supply, 40);
        assert_eq!(industry.inventory(Good::Food), 0);
        assert_eq!(industry.inventory(Good::Clothes), 0);
        assert_eq!(industry.money_supply(), 60 + 11 * 3 + 3 * 4);
        assert!(population.count() >= 1 && population.count() <= 8);
    }
}

#[test]
fn fitness_of_consumers() {
    assert!(Population::from_pops(vec![pop(0, 0, i32::MAX - 1), pop(5, 5, i32::MIN + 1)]).is_fit());
    assert!(!Population::from_pops(vec![pop(0, 0, 1), pop(-1, 0, 1)]).is_fit());
    assert!(!Population::from_pops(vec![pop(0, -1, 1)]).is_fit());
    assert!(!Population::from_pops(vec![pop(0, 0, i32::MAX)]).is_fit());
    assert!(!Population::from_pops(vec![pop(0, 0, i32::MIN)]).is_fit());
    assert!(Population::new(0, pop(-1, -1, 0)).is_fit());
}
