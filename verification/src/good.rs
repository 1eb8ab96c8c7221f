//! The goods that are traded.

use vstd::prelude::*;

verus! {

/// How many goods there are.
pub const NUM_OF_GOODS: usize = 3;

/// A tradeable category. The set is closed: nothing else is ever traded.
#[derive(Debug, Clone, Copy, PartialEq, Eq, Structural)]
pub enum Good {
    Food,
    Clothes,
    Labour,
}

impl Good {
    /// The position of the good in any per-good table.
    pub open spec fn index(self) -> int {
        match self {
            Good::Food => 0,
            Good::Clothes => 1,
            Good::Labour => 2,
        }
    }

    /// The good at position `x`, if there is one.
    pub open spec fn at(x: int) -> Option<Good> {
        if x == 0 {
            Some(Good::Food)
        } else if x == 1 {
            Some(Good::Clothes)
        } else if x == 2 {
            Some(Good::Labour)
        } else {
            None
        }
    }

    /// The good's name, letter by letter.
    pub open spec fn name(self) -> Seq<char> {
        match self {
            Good::Food => "Food"@,
            Good::Clothes => "Clothes"@,
            Good::Labour => "Labour"@,
        }
    }

    /// Whether a factory can make the good. Labour is only ever sold by
    /// consumers.
    pub open spec fn is_commodity(self) -> bool {
        self != Good::Labour
    }

    /// Hundredths of a factory's inventory of the good that are still there
    /// on the next working day.
    pub open spec fn retention(self) -> int {
        match self {
            Good::Food => 90,
            _ => 98,
        }
    }

    /// Hundredths of a unit of the good that a factory makes for each unit
    /// of the natural logarithm of one more than the labour it has hired.
    pub open spec fn yield_rate(self) -> int {
        match self {
            Good::Food => 200,
            _ => 70,
        }
    }

    /// Hundredths of a factory's inventory of the good that are still there
    /// on the next working day.
    pub fn retention_percent(self) -> (percent: i32)
        requires
            self.is_commodity(),
        ensures
            percent == self.retention(),
            0 < percent <= 100,
    {
        match self {
            Good::Food => 90,
            _ => 98,
        }
    }

    /// Hundredths of a unit of the good that a factory makes for each unit
    /// of the natural logarithm of one more than the labour it has hired.
    pub fn yield_percent(self) -> (percent: i32)
        requires
            self.is_commodity(),
        ensures
            percent == self.yield_rate(),
    {
        match self {
            Good::Food => 200,
            _ => 70,
        }
    }

    /// The good's name.
    pub fn as_str(&self) -> (s: &'static str)
        ensures
            s@ == self.name(),
    {
        match *self {
            Good::Food => "Food",
            Good::Clothes => "Clothes",
            Good::Labour => "Labour",
        }
    }

    /// The good at position `x`, if there is one.
    pub fn from_int(x: i32) -> (good: Option<Self>)
        ensures
            good == Good::at(x as int),
            good is Some <==> 0 <= x < NUM_OF_GOODS,
            good matches Some(g) ==> g.index() == x,
    {
        match x {
            0 => Some(Good::Food),
            1 => Some(Good::Clothes),
            2 => Some(Good::Labour),
            _ => None,
        }
    }

    /// The position of the good in any per-good table.
    pub fn to_index(self) -> (i: usize)
        ensures
            i == self.index(),
            i < NUM_OF_GOODS,
            Good::at(i as int) == Some(self),
    {
        match self {
            Good::Food => 0,
            Good::Clothes => 1,
            Good::Labour => 2,
        }
    }
}

} // verus!
