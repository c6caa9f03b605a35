//! Construction day: the day's last slot is reserved, where possible, for
//! somebody who can carry on into research's first slot, and may only be
//! contested with a strictly higher combined score.

use std::collections::{HashMap, HashSet};
use vstd::prelude::*;
use crate::parser::{entries_view, roster_view, AppointmentEntry, EntryView};
use super::census::ids_distinct;
use super::laws::{
    closed_stay_empty, law_construction_no_double_booking, law_construction_pre_locked_stay_empty,
    slots_recorded,
};
use super::move_chain::players_distinct;
use super::generic::{
    availability_lists, availability_of, borrow_all, by_score, candidates_of, copy_slots,
    drop_player, fresh_start, gather_candidates, highest_key, highest_key_of, place, run_queue,
    run_spec, sort_by_score, without_player, DayRules, RunState,
};
use super::research::{accepts_handoff, HANDOFF_SLOT};
use super::slot_utils::{calculate_slot_rankings, lists_slot, slot_rankings};
use super::types::{
    appointments_view, strings_view, AppointmentView, Day, DaySchedule, DayScheduleView,
    ScheduledAppointment,
};

verus! {

/// The last slot of a day on which nobody lists any slot.
pub const DEFAULT_LAST_SLOT: u8 = 49;

/// The day's last slot: the highest slot that any candidate lists.
pub open spec fn last_slot_of(rankings: Map<u8, usize>) -> u8 {
    match highest_key(rankings) {
        Some(top) => top,
        None => DEFAULT_LAST_SLOT,
    }
}

/// Whether a candidate is favoured for the last slot: they accept it, and
/// they can carry on into research's first slot.
pub open spec fn favoured(e: EntryView, last: u8) -> bool {
    accepts_handoff(e) && e.construction_available_slots.contains(last)
}

/// The candidates of `pool` that are favoured for `last` (or, with
/// `wanted` false, those that are not), in the same order.
pub open spec fn select_favoured(pool: Seq<EntryView>, last: u8, wanted: bool) -> Seq<EntryView>
    decreases pool.len(),
{
    if pool.len() == 0 {
        Seq::empty()
    } else {
        let init = select_favoured(pool.drop_last(), last, wanted);
        if favoured(pool.last(), last) == wanted {
            init.push(pool.last())
        } else {
            init
        }
    }
}

/// The day's last slot: the one given, or else the highest slot that any
/// candidate lists.
pub open spec fn chosen_last_slot(pool: Seq<EntryView>, given: Option<u8>) -> u8 {
    match given {
        Some(last) => last,
        None => last_slot_of(slot_rankings(availability_lists(pool, Day::Construction))),
    }
}

/// The rules of construction day over `pool` with last slot `last`.
pub open spec fn construction_rules(pool: Seq<EntryView>, last: u8) -> DayRules {
    DayRules {
        roster: pool,
        day: Day::Construction,
        rankings: slot_rankings(availability_lists(pool, Day::Construction)),
        locked: Set::empty(),
        gate: Some(last),
    }
}

/// The favoured candidate who is given the last slot outright, if any:
/// the best-scoring one, provided the slot is not closed.
pub open spec fn last_slot_winner(pool: Seq<EntryView>, pre_locked: Set<u8>, last: u8) -> Option<
    EntryView,
> {
    let first = by_score(select_favoured(pool, last, true), Day::Construction);
    if first.len() > 0 && !pre_locked.contains(last) {
        Some(first[0])
    } else {
        None
    }
}

/// The candidates still to be seated once the last slot has been given
/// out, best score first.
pub open spec fn construction_queue(pool: Seq<EntryView>, pre_locked: Set<u8>, last: u8) -> Seq<
    EntryView,
> {
    let first = by_score(select_favoured(pool, last, true), Day::Construction);
    let others = by_score(select_favoured(pool, last, false), Day::Construction);
    match last_slot_winner(pool, pre_locked, last) {
        Some(winner) => by_score(
            without_player(first, winner.player_id) + others,
            Day::Construction,
        ),
        None => by_score(first + others, Day::Construction),
    }
}

/// The board on which the run starts: empty but for the winner of the
/// last slot.
pub open spec fn construction_start(pool: Seq<EntryView>, pre_locked: Set<u8>, last: u8) -> RunState {
    let start = fresh_start(pre_locked);
    match last_slot_winner(pool, pre_locked, last) {
        Some(winner) => RunState {
            board: place(start.board, Day::Construction, winner, last),
            unassigned: start.unassigned,
        },
        None => start,
    }
}

/// The construction schedule of a pool of candidates with last slot
/// `last`.
pub open spec fn construction_pool_schedule(pool: Seq<EntryView>, pre_locked: Set<u8>, last: u8) -> DayScheduleView {
    let end = run_spec(
        construction_rules(pool, last),
        construction_start(pool, pre_locked, last),
        construction_queue(pool, pre_locked, last),
    );
    DayScheduleView { appointments: end.board.seats, unassigned: end.unassigned }
}

/// The construction schedule of `entries`.
///
/// The favoured candidate with the best score is given the last slot
/// outright, unless it is closed.  Everybody else is seated as on a plain
/// day, except that the last slot may only be contested with a strictly
/// higher combined score than its holder's.
pub open spec fn construction_schedule(
    entries: Seq<EntryView>,
    pre_locked: Set<u8>,
    last_slot: Option<u8>,
) -> DayScheduleView {
    let pool = candidates_of(entries, Day::Construction);
    construction_pool_schedule(pool, pre_locked, chosen_last_slot(pool, last_slot))
}

/// Whether an entry is favoured for `last`.
pub fn is_favoured(e: &AppointmentEntry, last: u8) -> (r: bool)
    ensures
        r == favoured(e@, last),
{
    e.wants_research && lists_slot(e.research_available_slots.as_slice(), HANDOFF_SLOT)
        && lists_slot(e.construction_available_slots.as_slice(), last)
}

/// Selects the candidates that are favoured for `last`, or those that are
/// not.
pub fn pick_favoured<'a>(pool: &[&'a AppointmentEntry], last: u8, wanted: bool) -> (picked: Vec<
    &'a AppointmentEntry,
>)
    ensures
        roster_view(picked@) == select_favoured(roster_view(pool@), last, wanted),
{
    let ghost all = roster_view(pool@);
    let mut picked: Vec<&'a AppointmentEntry> = Vec::new();
    let mut i: usize = 0;
    assert(all.take(0) =~= Seq::<EntryView>::empty());
    while i < pool.len()
        invariant
            i <= pool.len(),
            all == roster_view(pool@),
            roster_view(picked@) =~= select_favoured(all.take(i as int), last, wanted),
        decreases pool.len() - i,
    {
        let ghost before = roster_view(picked@);
        proof {
            assert(all.take(i + 1).drop_last() =~= all.take(i as int));
            assert(all.take(i + 1).last() == pool@[i as int]@);
        }
        if is_favoured(pool[i], last) == wanted {
            picked.push(pool[i]);
            assert(roster_view(picked@) =~= before.push(pool@[i as int]@));
        }
        i += 1;
    }
    assert(all.take(all.len() as int) =~= all);
    picked
}

/// Schedules construction day for borrowed entries with the slots of
/// `pre_locked_slots` closed.  `last_slot` names the day's last slot;
/// where it is `None` the highest slot that any candidate lists is taken,
/// or slot 49 where nobody lists any.
pub fn schedule_construction_refs(
    entries: &[&AppointmentEntry],
    pre_locked_slots: &HashSet<u8>,
    last_slot: Option<u8>,
) -> (result: DaySchedule)
    ensures
        result@ == construction_schedule(roster_view(entries@), pre_locked_slots@, last_slot),
        slots_recorded(result@.appointments),
        closed_stay_empty(result@.appointments, pre_locked_slots@),
        ids_distinct(roster_view(entries@)) ==> players_distinct(result@.appointments),
{
    proof {
        law_construction_no_double_booking(roster_view(entries@), pre_locked_slots@, last_slot);
        law_construction_pre_locked_stay_empty(
            roster_view(entries@),
            pre_locked_slots@,
            last_slot,
        );
    }
    let day = Day::Construction;
    let pool = gather_candidates(entries, day);
    let lists = availability_of(pool.as_slice(), day);
    let rankings = calculate_slot_rankings(lists.as_slice());
    let last: u8 = match last_slot {
        Some(given) => given,
        None => match highest_key_of(&rankings) {
            Some(top) => top,
            None => DEFAULT_LAST_SLOT,
        },
    };
    let first = sort_by_score(pick_favoured(pool.as_slice(), last, true).as_slice(), day);
    let mut others = sort_by_score(pick_favoured(pool.as_slice(), last, false).as_slice(), day);
    let ghost others_view = roster_view(others@);

    let mut schedule: HashMap<u8, ScheduledAppointment> = HashMap::new();
    let mut used_slots = copy_slots(pre_locked_slots);
    let mut unassigned: Vec<String> = Vec::new();
    let nobody: HashSet<u8> = HashSet::new();
    proof {
        assert(appointments_view(schedule@) =~= Map::<u8, AppointmentView>::empty());
        assert(strings_view(unassigned@) =~= Seq::<Seq<char>>::empty());
    }
    let mut remaining = if first.len() > 0 && !used_slots.contains(&last) {
        let winner = first[0];
        assert(roster_view(first@)[0] == winner@);
        schedule.insert(last, day.seat(winner, last));
        used_slots.insert(last);
        proof {
            assert(appointments_view(schedule@) =~= place(
                fresh_start(pre_locked_slots@).board,
                day,
                winner@,
                last,
            ).seats);
        }
        drop_player(first.as_slice(), &winner.player_id)
    } else {
        first
    };
    let ghost front = roster_view(remaining@);
    remaining.append(&mut others);
    proof {
        assert(roster_view(remaining@) =~= front + others_view);
    }
    let queue = sort_by_score(remaining.as_slice(), day);
    run_queue(
        pool.as_slice(),
        day,
        &rankings,
        &nobody,
        Some(last),
        &mut schedule,
        &mut used_slots,
        &mut unassigned,
        queue.as_slice(),
    );
    DaySchedule { appointments: schedule, unassigned }
}

/// Schedules construction day with the slots of `pre_locked_slots`
/// closed.  `last_slot` names the day's last slot; where it is `None` the
/// highest slot that any candidate lists is taken, or slot 49 where
/// nobody lists any.
pub fn schedule_construction_day_with_locked(
    entries: &[AppointmentEntry],
    pre_locked_slots: &HashSet<u8>,
    last_slot: Option<u8>,
) -> (result: DaySchedule)
    ensures
        result@ == construction_schedule(entries_view(entries@), pre_locked_slots@, last_slot),
        slots_recorded(result@.appointments),
        closed_stay_empty(result@.appointments, pre_locked_slots@),
        ids_distinct(entries_view(entries@)) ==> players_distinct(result@.appointments),
{
    let refs = borrow_all(entries);
    schedule_construction_refs(refs.as_slice(), pre_locked_slots, last_slot)
}

/// Schedules construction day with every slot open and the last slot
/// taken from the candidates' lists.
pub fn schedule_construction_day(entries: &[AppointmentEntry]) -> (result: DaySchedule)
    ensures
        result@ == construction_schedule(entries_view(entries@), Set::<u8>::empty(), None),
        slots_recorded(result@.appointments),
        ids_distinct(entries_view(entries@)) ==> players_distinct(result@.appointments),
{
    let open: HashSet<u8> = HashSet::new();
    schedule_construction_day_with_locked(entries, &open, None)
}

} // verus!
