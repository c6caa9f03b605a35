//! Troops training day: the plain day assigner, with no link to another
//! day.

use std::collections::HashSet;
use vstd::prelude::*;
use crate::parser::{entries_view, AppointmentEntry};
use super::census::ids_distinct;
use super::generic::{generic_schedule, schedule_day_generic_with_locked_slots};
use super::laws::{closed_stay_empty, slots_recorded};
use super::move_chain::players_distinct;
use super::types::{Day, DaySchedule};

verus! {

/// Schedules the troops training day with the slots of
/// `pre_locked_slots` closed.
pub fn schedule_troops_day_with_locked(
    entries: &[AppointmentEntry],
    pre_locked_slots: &HashSet<u8>,
) -> (result: DaySchedule)
    ensures
        result@ == generic_schedule(
            entries_view(entries@),
            Day::Troops,
            pre_locked_slots@,
            Set::<u8>::empty(),
        ),
        slots_recorded(result@.appointments),
        closed_stay_empty(result@.appointments, pre_locked_slots@),
        ids_distinct(entries_view(entries@)) ==> players_distinct(result@.appointments),
{
    let nobody: HashSet<u8> = HashSet::new();
    schedule_day_generic_with_locked_slots(entries, Day::Troops, pre_locked_slots, &nobody)
}

/// Schedules the troops training day with every slot open.
pub fn schedule_troops_day(entries: &[AppointmentEntry]) -> (result: DaySchedule)
    ensures
        result@ == generic_schedule(
            entries_view(entries@),
            Day::Troops,
            Set::<u8>::empty(),
            Set::<u8>::empty(),
        ),
        slots_recorded(result@.appointments),
        ids_distinct(entries_view(entries@)) ==> players_distinct(result@.appointments),
{
    let open: HashSet<u8> = HashSet::new();
    schedule_troops_day_with_locked(entries, &open)
}

} // verus!
