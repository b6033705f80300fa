//! Log levels as the file log filter stores them.

use vstd::prelude::*;

verus! {

/// The most verbose level that a log target lets through.
#[derive(Clone, Copy, Debug, PartialEq, Eq, Structural)]
pub enum LevelFilter {
    Off,
    Error,
    Warn,
    Info,
    Debug,
    Trace,
}

/// The number that stands for `filter` in the stored setting.
pub open spec fn level_number(filter: LevelFilter) -> int {
    match filter {
        LevelFilter::Off => 0,
        LevelFilter::Error => 1,
        LevelFilter::Warn => 2,
        LevelFilter::Info => 3,
        LevelFilter::Debug => 4,
        LevelFilter::Trace => 5,
    }
}

/// The level filter that the stored number `value` stands for; any number
/// past the last level stands for the most verbose one.
pub fn level_filter_from_u8(value: u8) -> (filter: LevelFilter)
    ensures
        value <= 5 ==> level_number(filter) == value,
        value > 5 ==> filter == LevelFilter::Trace,
{
    match value {
        0 => LevelFilter::Off,
        1 => LevelFilter::Error,
        2 => LevelFilter::Warn,
        3 => LevelFilter::Info,
        4 => LevelFilter::Debug,
        _ => LevelFilter::Trace,
    }
}

/// The number that stands for `filter` in the stored setting.
pub fn level_filter_to_u8(filter: LevelFilter) -> (value: u8)
    ensures
        value == level_number(filter),
{
    match filter {
        LevelFilter::Off => 0,
        LevelFilter::Error => 1,
        LevelFilter::Warn => 2,
        LevelFilter::Info => 3,
        LevelFilter::Debug => 4,
        LevelFilter::Trace => 5,
    }
}

/// Storing a level and reading it back gives the level.
pub proof fn lemma_level_round_trip(filter: LevelFilter)
    ensures
        0 <= level_number(filter) <= 5,
        forall|other: LevelFilter|
            level_number(other) == level_number(filter) ==> other == filter,
{
}

} // verus!
