//! Scheduling of activities ("Fraktivitäten") into rooms and time slots.
use vstd::prelude::*;

pub mod fraktivitaet_verteilung;
pub mod lp;
pub mod text;

pub use lp::constraints::add_constraints;
pub use lp::{FractivityEntry, FractivityRoom};

verus! {

/// Length of one scheduling slot in minutes.
pub const TIME_RESOLUTION: i32 = 15;

/// First clock time of the day plan of a `FraktivitaetManager`.
pub const START: &'static str = "08:00";

/// Last clock time of the day plan of a `FraktivitaetManager`.
pub const END: &'static str = "22:00";

/// Minutes per grid step of the day plan of a `FraktivitaetManager`.
pub const STEP: usize = 15;

/// Periods of the day plan of a `FraktivitaetManager` in which no activity
/// may take place (pairs of clock times); none by default.
pub fn excluded() -> (res: Vec<(&'static str, &'static str)>)
    ensures
        res@.len() == 0,
{
    Vec::new()
}


} // verus!
