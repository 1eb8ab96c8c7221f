//! Small values that pass between the parts of the economy.

use vstd::prelude::*;

verus! {

/// The money that an agent leaves behind when it is removed.
#[derive(Debug, Clone, Copy, PartialEq, Eq, Structural)]
pub struct Inheritance(pub i32);

} // verus!
