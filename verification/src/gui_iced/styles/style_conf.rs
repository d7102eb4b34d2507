//! The choice of the light or the dark theme.
use vstd::prelude::*;

verus! {

/// The hours of daylight in Paris for a month counted from January (0):
/// light from the first hour to the second, exclusive; outside the year,
/// from 5 to 22.
pub open spec fn paris_daylight(month0: u32) -> (u32, u32) {
    if month0 == 0 { (8, 17) }
    else if month0 == 1 { (8, 18) }
    else if month0 == 2 { (7, 19) }
    else if month0 == 3 { (7, 21) }
    else if month0 == 4 { (6, 22) }
    else if month0 == 5 { (5, 22) }
    else if month0 == 6 { (6, 22) }
    else if month0 == 7 { (6, 22) }
    else if month0 == 8 { (7, 20) }
    else if month0 == 9 { (8, 19) }
    else if month0 == 10 { (7, 17) }
    else if month0 == 11 { (8, 17) }
    else { (5, 22) }
}

fn daylight(month0: u32) -> (l: (u32, u32))
    ensures
        l == paris_daylight(month0),
{
    match month0 {
        0 => (8, 17),
        1 => (8, 18),
        2 => (7, 19),
        3 => (7, 21),
        4 => (6, 22),
        5 => (5, 22),
        6 => (6, 22),
        7 => (6, 22),
        8 => (7, 20),
        9 => (8, 19),
        10 => (7, 17),
        11 => (8, 17),
        _ => (5, 22),
    }
}

/// Whether the dark theme suits the local time given by its month (counted
/// from January, 0) and its hour: dark outside the hours of daylight in
/// Paris.
pub fn dark_mode_in_paris(month0: u32, hour: u32) -> (dark: bool)
    ensures
        dark == !(paris_daylight(month0).0 < hour && hour < paris_daylight(month0).1),
{
    let light = daylight(month0);
    !(hour > light.0 && hour < light.1)
}

} // verus!
