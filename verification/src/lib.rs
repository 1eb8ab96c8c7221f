//! A closed economy in whole numbers: consumers, factories and one market per
//! good, advanced one trading day at a time.

pub mod bns;
pub mod chance;
pub mod good;
pub mod industry;
pub mod market;
pub mod misc;
pub mod population;
pub mod production;
pub mod scan;
pub mod tally;
pub mod world;
