//! Apogee: the integer and text logic of a spacecraft simulation library —
//! leap second tables, DAF kernel file records, the flight-mode state
//! machine, the ephemeris LRU cache and body list, and the small value
//! types they use.
pub mod aero;
pub mod cache;
pub mod celestial;
pub mod daf;
pub mod decimal;
pub mod eop;
pub mod ephemeris;
pub mod error;
pub mod frames;
pub mod gravity;
pub mod leap_seconds;
pub mod state_machine;
pub mod text;
pub mod time;

pub use error::{ApogeeError, ApogeeResult, NaifId};
