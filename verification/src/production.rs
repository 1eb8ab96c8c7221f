//! What labour makes.
//!
//! How much a factory makes in a day depends on the good and on the labour
//! at work, and on nothing else. The rule is a logarithm and so not
//! something to work out in whole numbers: it comes to the economy worked
//! out, as a table for each commodity.

use vstd::prelude::*;
use crate::good::Good;

verus! {

/// For each commodity, the units that a factory makes in a day with no
/// labour, with one unit of labour, with two, and so on.
pub struct Schedule {
    food: Vec<i32>,
    clothes: Vec<i32>,
    peak: i32,
}

impl Schedule {
    /// The table of `good`. There is none for labour.
    pub closed spec fn table(&self, good: Good) -> Seq<i32> {
        match good {
            Good::Food => self.food@,
            Good::Clothes => self.clothes@,
            Good::Labour => Seq::empty(),
        }
    }

    /// A number that no entry of either table is above.
    pub closed spec fn peak(&self) -> int {
        self.peak as int
    }

    /// No entry is negative, and none is above the peak.
    pub open spec fn wf(&self) -> bool {
        &&& 0 <= self.peak() <= i32::MAX
        &&& forall|good: Good, labour: int|
            0 <= labour < self.table(good).len() ==> 0 <= #[trigger] self.table(good)[labour]
                <= self.peak()
    }

    /// The tables say what is made with up to `labour` units of labour.
    pub open spec fn covers(&self, labour: int) -> bool {
        labour < self.table(Good::Food).len() && labour < self.table(Good::Clothes).len()
    }

    /// The greatest of the first `k` entries of `table`, and at least `least`.
    pub open spec fn greatest(table: Seq<i32>, least: int, k: int) -> int
        decreases k,
    {
        if k <= 0 {
            least
        } else {
            let rest = Schedule::greatest(table, least, k - 1);
            if table[k - 1] > rest {
                table[k - 1] as int
            } else {
                rest
            }
        }
    }

    /// The greatest entry of `table`, or `least` if that is more; nothing if
    /// an entry is negative.
    fn scan(table: &Vec<i32>, least: i32) -> (greatest: Option<i32>)
        requires
            0 <= least,
        ensures
            greatest is Some <==> forall|i: int| 0 <= i < table@.len()
                ==> #[trigger] table@[i] >= 0,
            greatest matches Some(g) ==> g == Schedule::greatest(
                table@,
                least as int,
                table@.len() as int,
            ) && g >= least && forall|i: int| 0 <= i < table@.len() ==> #[trigger] table@[i] <= g,
    {
        let mut greatest = least;
        let mut i: usize = 0;
        while i < table.len()
            invariant
                i <= table@.len(),
                0 <= least <= greatest,
                greatest == Schedule::greatest(table@, least as int, i as int),
                forall|j: int| 0 <= j < i ==> 0 <= #[trigger] table@[j] <= greatest,
            decreases table@.len() - i,
        {
            if table[i] < 0 {
                return None;
            }
            if table[i] > greatest {
                greatest = table[i];
            }
            i += 1;
        }
        Some(greatest)
    }

    /// The schedule with the tables `food` and `clothes`: entry `l` of a table
    /// is what is made with `l` units of labour. There is no schedule with
    /// a negative entry.
    pub fn new(food: Vec<i32>, clothes: Vec<i32>) -> (schedule: Option<Self>)
        ensures
            schedule is Some <==> (forall|i: int| 0 <= i < food@.len() ==> #[trigger] food@[i] >= 0)
                && (forall|i: int| 0 <= i < clothes@.len() ==> #[trigger] clothes@[i] >= 0),
            schedule matches Some(s) ==> {
                &&& s.wf()
                &&& s.table(Good::Food) == food@
                &&& s.table(Good::Clothes) == clothes@
                &&& s.peak() == Schedule::greatest(
                    clothes@,
                    Schedule::greatest(food@, 0, food@.len() as int),
                    clothes@.len() as int,
                )
            },
    {
        match Schedule::scan(&food, 0) {
            None => None,
            Some(first) => match Schedule::scan(&clothes, first) {
                None => None,
                Some(peak) => {
                    let schedule = Schedule { food, clothes, peak };
                    proof {
                        assert forall|good: Good, labour: int|
                            0 <= labour < schedule.table(good).len() implies 0
                            <= #[trigger] schedule.table(good)[labour] <= schedule.peak() by {
                            if good == Good::Food {
                                assert(food@[labour] <= first);
                            } else if good == Good::Clothes {
                                assert(clothes@[labour] <= peak);
                            }
                        }
                    }
                    Some(schedule)
                },
            },
        }
    }

    /// The greatest entry of the tables.
    pub fn max_output(&self) -> (peak: i32)
        ensures
            peak == self.peak(),
    {
        self.peak
    }

    /// The labour from which on the tables say nothing: the length of the
    /// shorter one.
    pub fn reach(&self) -> (reach: usize)
        ensures
            forall|labour: int| self.covers(labour) <==> labour < reach,
    {
        if self.food.len() < self.clothes.len() {
            self.food.len()
        } else {
            self.clothes.len()
        }
    }

    /// What a factory for `good` makes in a day with `labour` units of
    /// labour.
    pub fn output(&self, good: Good, labour: i32) -> (output: i32)
        requires
            good.is_commodity(),
            0 <= labour < self.table(good).len(),
        ensures
            output == self.table(good)[labour as int],
    {
        match good {
            Good::Food => self.food[labour as usize],
            _ => self.clothes[labour as usize],
        }
    }
}

} // verus!
