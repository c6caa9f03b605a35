//! The scheduling engine: data model, popularity ranking, relocation chains
//! and the per-day entry points.

pub mod append;
pub mod census;
pub mod construction;
pub mod counting;
pub mod generic;
pub mod input_order;
pub mod laws;
pub mod move_chain;
pub mod ordering;
pub mod pins;
pub mod research;
pub mod seating;
pub mod slot_utils;
pub mod troops;
pub mod types;

pub use types::{Day, DaySchedule, Move, ScheduledAppointment};
pub use construction::{schedule_construction_day, schedule_construction_day_with_locked};
pub use generic::{schedule_day_generic, schedule_day_generic_with_locked_slots};
pub use move_chain::{apply_move_chain, find_move_chain};
pub use research::{schedule_research_day, schedule_research_day_with_locked};
pub use slot_utils::{
    calculate_slot_rankings, calculate_time_slots, minutes_to_time_string,
    parse_time_to_minutes, slot_to_time,
};
pub use troops::{schedule_troops_day, schedule_troops_day_with_locked};
