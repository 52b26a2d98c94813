use vstd::prelude::*;

verus! {

/// A time of day as it is stored: no field is checked against the clock.
#[derive(Clone, Copy, Debug, PartialEq, Eq, Structural)]
pub struct Time {
    pub second: u8,
    pub minute: u8,
    pub hour: u8,
}

impl Time {
    pub fn new(hour: u8, minute: u8, second: u8) -> (r: Self)
        ensures
            r.hour == hour,
            r.minute == minute,
            r.second == second,
    {
        Time { second, minute, hour }
    }
}

} // verus!
