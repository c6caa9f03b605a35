//! Research day: whoever ends construction day in its highest occupied
//! slot is handed research's first slot, and everybody else is scheduled
//! around them.

use std::collections::HashSet;
use vstd::prelude::*;
use crate::parser::{entries_view, first_entry_from, roster_view, AppointmentEntry, EntryView};
use super::census::ids_distinct;
use super::laws::{
    closed_stay_empty, law_research_no_double_booking, law_research_pre_locked_stay_empty,
    slots_recorded,
};
use super::move_chain::players_distinct;
use super::generic::{
    borrow_all, candidates_of, copy_slots, drop_player, gather_candidates, highest_key,
    highest_key_below, highest_key_of, lemma_highest_key, pool_schedule, schedule_pool,
    without_player,
};
use super::slot_utils::lists_slot;
use super::types::{appointments_view, AppointmentView, Day, DaySchedule, DayScheduleView};

verus! {

/// The slot that the hand-off fills.
pub const HANDOFF_SLOT: u8 = 1;

/// Whether an entry can be handed research's first slot: it asks for
/// research and accepts that slot.
pub open spec fn accepts_handoff(e: EntryView) -> bool {
    e.wants_research && e.research_available_slots.contains(HANDOFF_SLOT)
}

/// The entry that is handed research's first slot: the holder of
/// construction's highest occupied slot, provided their entry accepts the
/// hand-off and the slot is not closed.
pub open spec fn handoff(
    entries: Seq<EntryView>,
    construction: Map<u8, AppointmentView>,
    pre_locked: Set<u8>,
) -> Option<int> {
    match highest_key(construction) {
        None => None,
        Some(last) => match first_entry_from(entries, 0, construction[last].player_id) {
            None => None,
            Some(k) => if accepts_handoff(entries[k]) && !pre_locked.contains(HANDOFF_SLOT) {
                Some(k)
            } else {
                None
            },
        },
    }
}

/// The research schedule.
///
/// With a hand-off, the chosen entry sits in the first slot, which is
/// closed and locked for the rest of the run, and the other players are
/// scheduled without them.  Without one, everybody is scheduled; the
/// first slot is locked where it was closed from the outset.
pub open spec fn research_schedule(
    entries: Seq<EntryView>,
    construction: Map<u8, AppointmentView>,
    pre_locked: Set<u8>,
) -> DayScheduleView {
    let pool = candidates_of(entries, Day::Research);
    match handoff(entries, construction, pre_locked) {
        Some(k) => {
            let rest = pool_schedule(
                without_player(pool, entries[k].player_id),
                Day::Research,
                pre_locked.insert(HANDOFF_SLOT),
                set![HANDOFF_SLOT],
            );
            DayScheduleView {
                appointments: rest.appointments.insert(
                    HANDOFF_SLOT,
                    Day::Research.seat_spec(entries[k], HANDOFF_SLOT),
                ),
                unassigned: rest.unassigned,
            }
        },
        None => pool_schedule(
            pool,
            Day::Research,
            pre_locked,
            if pre_locked.contains(HANDOFF_SLOT) {
                set![HANDOFF_SLOT]
            } else {
                Set::empty()
            },
        ),
    }
}

/// Finds the first of the borrowed entries that carries player id
/// `id`.
pub fn first_ref_of(entries: &[&AppointmentEntry], id: &String) -> (r: Option<usize>)
    ensures
        match r {
            Some(k) => first_entry_from(roster_view(entries@), 0, id@) == Some(k as int) && k
                < entries@.len(),
            None => first_entry_from(roster_view(entries@), 0, id@).is_none(),
        },
{
    let ghost all = roster_view(entries@);
    let mut i: usize = 0;
    while i < entries.len()
        invariant
            i <= entries.len(),
            all == roster_view(entries@),
            first_entry_from(all, 0, id@) == first_entry_from(all, i as int, id@),
        decreases entries.len() - i,
    {
        if entries[i].player_id == *id {
            return Some(i);
        }
        i += 1;
    }
    None
}

/// Finds the entry that is handed research's first slot.
pub fn handoff_entry(
    entries: &[&AppointmentEntry],
    construction_schedule: &DaySchedule,
    pre_locked_slots: &HashSet<u8>,
) -> (r: Option<usize>)
    ensures
        match r {
            Some(k) => handoff(
                roster_view(entries@),
                construction_schedule@.appointments,
                pre_locked_slots@,
            ) == Some(k as int) && k < entries@.len(),
            None => handoff(
                roster_view(entries@),
                construction_schedule@.appointments,
                pre_locked_slots@,
            ).is_none(),
        },
{
    proof {
        lemma_highest_key(construction_schedule.appointments@, 256);
        lemma_highest_key_view(construction_schedule.appointments@, 256);
    }
    match highest_key_of(&construction_schedule.appointments) {
        None => None,
        Some(last) => match construction_schedule.appointments.get(&last) {
            None => None,
            Some(holder) => match first_ref_of(entries, &holder.player_id) {
                None => None,
                Some(k) => {
                    let entry = entries[k];
                    if entry.wants_research && lists_slot(
                        entry.research_available_slots.as_slice(),
                        HANDOFF_SLOT,
                    ) && !pre_locked_slots.contains(&HANDOFF_SLOT) {
                        Some(k)
                    } else {
                        None
                    }
                },
            },
        },
    }
}

proof fn lemma_highest_key_view(m: Map<u8, super::types::ScheduledAppointment>, n: int)
    ensures
        highest_key_below(appointments_view(m), n) == highest_key_below(m, n),
    decreases n,
{
    if n > 0 && !m.contains_key((n - 1) as u8) {
        lemma_highest_key_view(m, n - 1);
    }
}

/// Schedules the research day for borrowed entries with the slots of
/// `pre_locked_slots` closed, given how construction day ended.
pub fn schedule_research_refs(
    entries: &[&AppointmentEntry],
    construction_schedule: &DaySchedule,
    pre_locked_slots: &HashSet<u8>,
) -> (result: DaySchedule)
    ensures
        result@ == research_schedule(
            roster_view(entries@),
            construction_schedule@.appointments,
            pre_locked_slots@,
        ),
        slots_recorded(result@.appointments),
        closed_stay_empty(result@.appointments, pre_locked_slots@),
        ids_distinct(roster_view(entries@)) ==> players_distinct(result@.appointments),
{
    proof {
        law_research_no_double_booking(
            roster_view(entries@),
            construction_schedule@.appointments,
            pre_locked_slots@,
        );
        law_research_pre_locked_stay_empty(
            roster_view(entries@),
            construction_schedule@.appointments,
            pre_locked_slots@,
        );
    }
    let pool = gather_candidates(entries, Day::Research);
    let mut used_slots = copy_slots(pre_locked_slots);
    let mut locked_slots: HashSet<u8> = HashSet::new();
    match handoff_entry(entries, construction_schedule, pre_locked_slots) {
        Some(k) => {
            let entry = entries[k];
            used_slots.insert(HANDOFF_SLOT);
            locked_slots.insert(HANDOFF_SLOT);
            assert(locked_slots@ =~= set![HANDOFF_SLOT]);
            let others = drop_player(pool.as_slice(), &entry.player_id);
            let rest = schedule_pool(others.as_slice(), Day::Research, &used_slots, &locked_slots);
            let DaySchedule { appointments, unassigned } = rest;
            let mut appointments = appointments;
            let ghost before = appointments@;
            appointments.insert(HANDOFF_SLOT, Day::Research.seat(entry, HANDOFF_SLOT));
            proof {
                assert(appointments_view(appointments@) =~= appointments_view(before).insert(
                    HANDOFF_SLOT,
                    Day::Research.seat_spec(entry@, HANDOFF_SLOT),
                ));
            }
            DaySchedule { appointments, unassigned }
        },
        None => {
            if used_slots.contains(&HANDOFF_SLOT) {
                locked_slots.insert(HANDOFF_SLOT);
            }
            assert(locked_slots@ =~= if pre_locked_slots@.contains(HANDOFF_SLOT) {
                set![HANDOFF_SLOT]
            } else {
                Set::<u8>::empty()
            });
            schedule_pool(pool.as_slice(), Day::Research, &used_slots, &locked_slots)
        },
    }
}

/// Schedules the research day with the slots of `pre_locked_slots`
/// closed, given how construction day ended.
pub fn schedule_research_day_with_locked(
    entries: &[AppointmentEntry],
    construction_schedule: &DaySchedule,
    pre_locked_slots: &HashSet<u8>,
) -> (result: DaySchedule)
    ensures
        result@ == research_schedule(
            entries_view(entries@),
            construction_schedule@.appointments,
            pre_locked_slots@,
        ),
        slots_recorded(result@.appointments),
        closed_stay_empty(result@.appointments, pre_locked_slots@),
        ids_distinct(entries_view(entries@)) ==> players_distinct(result@.appointments),
{
    let refs = borrow_all(entries);
    schedule_research_refs(refs.as_slice(), construction_schedule, pre_locked_slots)
}

/// Schedules the research day with every slot open, given how
/// construction day ended.
pub fn schedule_research_day(entries: &[AppointmentEntry], construction_schedule: &DaySchedule) -> (result:
    DaySchedule)
    ensures
        result@ == research_schedule(
            entries_view(entries@),
            construction_schedule@.appointments,
            Set::<u8>::empty(),
        ),
        slots_recorded(result@.appointments),
        ids_distinct(entries_view(entries@)) ==> players_distinct(result@.appointments),
{
    let open: HashSet<u8> = HashSet::new();
    schedule_research_day_with_locked(entries, construction_schedule, &open)
}

} // verus!
