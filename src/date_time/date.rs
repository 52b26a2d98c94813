use vstd::prelude::*;

verus! {

/// A calendar date as it is stored: no field is checked against the calendar.
#[derive(Clone, Copy, Debug, PartialEq, Eq, Structural)]
pub struct Date {
    pub day: u8,
    pub month: u8,
    pub year: u16,
}

impl Date {
    pub fn new(year: u16, month: u8, day: u8) -> (r: Self)
        ensures
            r.year == year,
            r.month == month,
            r.day == day,
    {
        Date { day, month, year }
    }
}

} // verus!
