//! Slot assignment for preparation-week appointments.
//!
//! Each day offers a fixed pool of numbered time slots.  Candidates compete
//! for them by priority score, restricted to the slots they listed as
//! acceptable.  The engine assigns greedily, best score first, and frees a
//! contested slot through a bounded chain of relocations when it can.
//!
//! * [`schedule`] holds the engine: the data model, the day assigner, the
//!   relocation chains, the three days, pinned slots, and what is proved
//!   of every schedule.
//! * [`parser`] and [`records`] turn the answers of a sign-up table into
//!   candidate records.
//! * [`form`] checks submissions, writes them as rows and names forms.
//! * [`display`] gives the text of a schedule.
//! * [`text`] holds the small text utilities the others share.

pub mod display;
pub mod form;
pub mod parser;
pub mod records;
pub mod schedule;
pub mod text;
