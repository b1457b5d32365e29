//! Approximate heliocentric longitude of the planets under a circular-orbit
//! model: a mean longitude at a fixed epoch plus a constant angular speed.
//!
//! All quantities are integers: longitudes in millionths of a degree, periods
//! in thousandths of a day, and distances as a mantissa scaled by a power of
//! two.

pub mod error;
pub mod instant;
pub mod planet;
pub mod catalog;

pub use error::OrbitError;
pub use instant::Instant;
pub use planet::Planet;
