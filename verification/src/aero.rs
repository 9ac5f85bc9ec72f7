//! Atmosphere-related data handling that does not depend on floating point.
use vstd::prelude::*;

verus! {

/// Space weather database (F10.7, Ap/Kp indices by date). The loader does
/// not read any entries yet, so the database is always empty.
#[derive(Debug)]
pub struct SpaceWeatherData {}

impl Default for SpaceWeatherData {
    fn default() -> (d: Self)
        ensures
            d == (SpaceWeatherData {}),
    {
        SpaceWeatherData {}
    }
}

impl SpaceWeatherData {
    /// Load space weather data from a file path. No entries are read yet:
    /// the result is always an empty database.
    pub fn load(_path: &str) -> (r: Result<Self, std::io::Error>)
        ensures
            r matches Ok(d) && d == (SpaceWeatherData {}),
    {
        Ok(SpaceWeatherData {})
    }
}

/// HWM14's `iyd` argument (`yyddd`) for a day of year: the model is not
/// sensitive to the year for climatological winds, so the neutral reference
/// year 1993 (`93`) is used.
pub fn two_digit_year_and_doy(doy: u16) -> (iyd: i32)
    ensures
        iyd == 93 * 1000 + doy,
{
    let year: i32 = 93;
    year * 1000 + doy as i32
}

} // verus!
