//! Naming one part of one day's puzzle.

use vstd::prelude::*;

verus! {

/// Names one half of one day's puzzle: the year, the day of the month, and
/// which of the day's two parts.
pub struct SolutionPart {
    pub year: u32,
    pub day: u8,
    pub part: u8,
}

impl SolutionPart {
    /// A puzzle part from its year, day and part number.
    pub fn create(year: u32, day: u8, part: u8) -> (r: Self)
        ensures
            r.year == year,
            r.day == day,
            r.part == part,
    {
        Self { year, day, part }
    }
}

} // verus!
