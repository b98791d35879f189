//! Verified schedule optimizer: a grid of rows of events is rearranged, row
//! by row, so that the same leader appears in as few rows as possible at each
//! time column. The cost model, its incremental maintenance under in-row
//! swaps, the simulated-annealing driver, the greedy warm start and the text
//! codec are verified; randomness, CSV framing and the ordered collision map
//! come from outside crates behind trusted contracts.
#![verifier::loop_isolation(false)]

pub mod anneal;
pub mod codec;
pub mod delta;
pub mod event;
pub mod imap;
pub mod laws;
pub mod model;
pub mod rng;
pub mod schedule;
pub mod sums;

pub use codec::{EventModel, InputError, ScheduleModel};
pub use event::{Event, Precalc};
pub use schedule::{Cost, Schedule, AGING_OPT_DEFAULT};
