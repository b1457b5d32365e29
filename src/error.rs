use vstd::prelude::*;

verus! {

/// The ways an operation of this library can fail.
#[derive(Debug, Clone, PartialEq, Eq)]
pub enum OrbitError {
    /// A planet was constructed with a period that is not positive.
    InvalidParameter,
    /// A date string, given here, is neither `now` nor a calendar date
    /// `YYYY-MM-DD`.
    DateParseError(String),
    /// No planet of the catalog has the requested name.
    PlanetNotFound,
}

} // verus!
