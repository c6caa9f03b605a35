//! Pinned slots: appointments that are fixed before a run.  A pin closes
//! its slot to the run, keeps its player out of the day's run, and is
//! entered into the finished schedule.  A pin on research's first slot
//! and a pin on construction's last slot pull the other one along.

use std::collections::{HashMap, HashSet};
use vstd::prelude::*;
use crate::parser::{entries_view, AppointmentEntry, EntryView};
use super::append::{optional_appointments, unscheduled, unscheduled_entries};
use super::construction::{construction_schedule, schedule_construction_refs};
use super::generic::{copy_slots, generic_schedule, schedule_day_refs};
use super::research::{research_schedule, schedule_research_refs, HANDOFF_SLOT};
use super::types::{
    appointments_view, strings_view, AppointmentView, Day, DaySchedule, DayScheduleView,
    ScheduledAppointment,
};

verus! {

/// The priority score with which a pinned player is entered.
pub const PINNED_SCORE: u32 = 9999;

/// A slot fixed for a player on a day.
#[derive(Debug, Clone)]
pub struct PinnedSlot {
    pub day: Day,
    pub slot: u8,
    pub player_id: String,
    pub alliance: String,
    pub name: String,
}

/// The mathematical content of a [`PinnedSlot`].
pub struct PinView {
    pub day: Day,
    pub slot: u8,
    pub player_id: Seq<char>,
    pub alliance: Seq<char>,
    pub name: Seq<char>,
}

impl View for PinnedSlot {
    type V = PinView;

    open spec fn view(&self) -> PinView {
        PinView {
            day: self.day,
            slot: self.slot,
            player_id: self.player_id@,
            alliance: self.alliance@,
            name: self.name@,
        }
    }
}

/// The contents of a list of pins, in order.
pub open spec fn pins_view(pins: Seq<PinnedSlot>) -> Seq<PinView> {
    Seq::new(pins.len(), |i: int| pins[i]@)
}

/// A group of pins: those of a day, those on research's first slot, or
/// those on construction's last slot.
#[derive(Debug, Clone, Copy, PartialEq, Eq, Structural)]
pub enum PinGroup {
    OfDay(Day),
    ResearchFirst,
    ConstructionLast,
}

/// Whether a pin belongs to a group, where `last` is construction's last
/// slot.
pub open spec fn in_group(pin: PinView, group: PinGroup, last: u8) -> bool {
    match group {
        PinGroup::OfDay(day) => pin.day == day,
        PinGroup::ResearchFirst => pin.day == Day::Research && pin.slot == HANDOFF_SLOT,
        PinGroup::ConstructionLast => pin.day == Day::Construction && pin.slot == last,
    }
}

/// The players of the pins of a group, in order.
pub open spec fn group_ids(pins: Seq<PinView>, group: PinGroup, last: u8) -> Seq<Seq<char>>
    decreases pins.len(),
{
    if pins.len() == 0 {
        Seq::empty()
    } else {
        let init = group_ids(pins.drop_last(), group, last);
        if in_group(pins.last(), group, last) {
            init.push(pins.last().player_id)
        } else {
            init
        }
    }
}

/// The players whom the link between the two days concerns: those pinned
/// on research's first slot, and behind them those pinned on
/// construction's last slot.
pub open spec fn linked_ids(pins: Seq<PinView>, last: u8) -> Seq<Seq<char>> {
    group_ids(pins, PinGroup::ResearchFirst, last) + group_ids(
        pins,
        PinGroup::ConstructionLast,
        last,
    )
}

/// Whether player `id` has a pin on `day`.
pub open spec fn has_pin(pins: Seq<PinView>, day: Day, id: Seq<char>) -> bool {
    exists|i: int| 0 <= i < pins.len() && (#[trigger] pins[i]).day == day && pins[i].player_id == id
}

/// Whether some pin fixes `slot` on `day`.
pub open spec fn pins_slot(pins: Seq<PinView>, day: Day, slot: u8) -> bool {
    exists|i: int| 0 <= i < pins.len() && (#[trigger] pins[i]).day == day && pins[i].slot == slot
}

/// Whether some player pinned on research's first slot has no pin on
/// construction day, so that construction's last slot is theirs.
pub open spec fn first_pulls_last(pins: Seq<PinView>) -> bool {
    exists|i: int|
        0 <= i < pins.len() && (#[trigger] pins[i]).day == Day::Research && pins[i].slot
            == HANDOFF_SLOT && !has_pin(pins, Day::Construction, pins[i].player_id)
}

/// The slots that are closed to a day's run: those that an earlier
/// schedule has filled, those that a pin fixes, and the slot that the
/// link between the days claims.
pub open spec fn closed_slots(pins: Seq<PinView>, day: Day, last: u8, existing: Set<u8>) -> Set<u8> {
    Set::new(
        |s: u8|
            existing.contains(s) || pins_slot(pins, day, s) || (day == Day::Research && s
                == HANDOFF_SLOT && group_ids(pins, PinGroup::ConstructionLast, last).len() > 0)
                || (day == Day::Construction && s == last && first_pulls_last(pins)),
    )
}

/// The players who are kept out of a day's run: those pinned on the day,
/// and those whom the link between the days seats on it.
pub open spec fn excluded_ids(pins: Seq<PinView>, day: Day, last: u8) -> Seq<Seq<char>> {
    group_ids(pins, PinGroup::OfDay(day), last) + match day {
        Day::Construction => group_ids(pins, PinGroup::ResearchFirst, last),
        Day::Research => group_ids(pins, PinGroup::ConstructionLast, last),
        Day::Troops => Seq::empty(),
    }
}

/// What stands against a set of pins.
#[derive(Debug, Clone, Copy, PartialEq, Eq, Structural)]
pub enum PinFault {
    /// More than one pin on research's first slot.
    ResearchFirstTwice,
    /// The link between the days concerns more than one player.
    LinkTwice,
    /// The pin at this position fixes a slot that the earlier schedule
    /// has given to another player.
    SlotTaken(usize),
    /// The earlier schedule has another player than the linked one in
    /// research's first slot.
    ResearchFirstTaken,
    /// The earlier schedule has another player than the linked one in
    /// construction's last slot.
    ConstructionLastTaken,
}

/// Whether a seat is held by another player than `id`.
pub open spec fn held_by_other(seats: Map<u8, AppointmentView>, slot: u8, id: Seq<char>) -> bool {
    seats.contains_key(slot) && seats[slot].player_id != id
}

/// The appointments of an earlier schedule for a day.
pub open spec fn earlier_of(
    day: Day,
    construction: Map<u8, AppointmentView>,
    research: Map<u8, AppointmentView>,
    troops: Map<u8, AppointmentView>,
) -> Map<u8, AppointmentView> {
    match day {
        Day::Construction => construction,
        Day::Research => research,
        Day::Troops => troops,
    }
}

/// The first pin, from position `i` on, whose slot the earlier schedule
/// has given to another player.
pub open spec fn first_taken_from(
    pins: Seq<PinView>,
    i: int,
    construction: Map<u8, AppointmentView>,
    research: Map<u8, AppointmentView>,
    troops: Map<u8, AppointmentView>,
) -> Option<int>
    decreases pins.len() - i,
{
    if i < 0 || i >= pins.len() {
        None
    } else if held_by_other(
        earlier_of(pins[i].day, construction, research, troops),
        pins[i].slot,
        pins[i].player_id,
    ) {
        Some(i)
    } else {
        first_taken_from(pins, i + 1, construction, research, troops)
    }
}

/// Whether a list of ids names more than one player.
pub open spec fn names_two(ids: Seq<Seq<char>>) -> bool {
    exists|j: int| 0 <= j < ids.len() && #[trigger] ids[j] != ids[0]
}

/// The first thing that stands against a set of pins, if anything.
///
/// At most one pin may fix research's first slot, and the link between
/// the days may concern one player only.  When adding to an earlier
/// schedule, no pin may fix a slot that the earlier schedule has given to
/// another player, and the linked player must be the one whom the earlier
/// schedule has in research's first and construction's last slot, where
/// it has anybody there.
pub open spec fn pin_fault(
    pins: Seq<PinView>,
    last: u8,
    append: bool,
    construction: Map<u8, AppointmentView>,
    research: Map<u8, AppointmentView>,
    troops: Map<u8, AppointmentView>,
) -> Option<PinFault> {
    let linked = linked_ids(pins, last);
    if group_ids(pins, PinGroup::ResearchFirst, last).len() > 1 {
        Some(PinFault::ResearchFirstTwice)
    } else if names_two(linked) {
        Some(PinFault::LinkTwice)
    } else if !append {
        None
    } else {
        match first_taken_from(pins, 0, construction, research, troops) {
            Some(i) => Some(PinFault::SlotTaken(i as usize)),
            None => if linked.len() == 0 {
                None
            } else if held_by_other(research, HANDOFF_SLOT, linked[0]) {
                Some(PinFault::ResearchFirstTaken)
            } else if held_by_other(construction, last, linked[0]) {
                Some(PinFault::ConstructionLastTaken)
            } else {
                None
            },
        }
    }
}

/// The appointment that enters a pinned player in `slot`.
pub open spec fn pin_seat_spec(pin: PinView, slot: u8) -> AppointmentView {
    AppointmentView {
        player_id: pin.player_id,
        name: pin.name,
        alliance: pin.alliance,
        slot,
        priority_score: PINNED_SCORE,
    }
}

/// The appointments without those of player `id`.
pub open spec fn without_seats_of(seats: Map<u8, AppointmentView>, id: Seq<char>) -> Map<
    u8,
    AppointmentView,
> {
    Map::new(|s: u8| seats.contains_key(s) && seats[s].player_id != id, |s: u8| seats[s])
}

/// The appointments of the three days.
pub struct ThreeDays {
    pub construction: Map<u8, AppointmentView>,
    pub research: Map<u8, AppointmentView>,
    pub troops: Map<u8, AppointmentView>,
}

/// The three days after a pin has been entered.
///
/// The pinned player takes the pinned slot.  A pin on construction's last
/// slot also seats the player in research's first slot, unless the player
/// has a pin on research day.  A pin on research's first slot also seats
/// the player in construction's last slot, and nowhere else on that day,
/// unless the player has a pin on construction day.
pub open spec fn enter_pin(days: ThreeDays, pins: Seq<PinView>, pin: PinView, last: u8) -> ThreeDays {
    match pin.day {
        Day::Construction => ThreeDays {
            construction: days.construction.insert(pin.slot, pin_seat_spec(pin, pin.slot)),
            research: if pin.slot == last && !has_pin(pins, Day::Research, pin.player_id) {
                days.research.insert(HANDOFF_SLOT, pin_seat_spec(pin, HANDOFF_SLOT))
            } else {
                days.research
            },
            troops: days.troops,
        },
        Day::Research => ThreeDays {
            construction: if pin.slot == HANDOFF_SLOT && !has_pin(
                pins,
                Day::Construction,
                pin.player_id,
            ) {
                without_seats_of(days.construction, pin.player_id).insert(
                    last,
                    pin_seat_spec(pin, last),
                )
            } else {
                days.construction
            },
            research: days.research.insert(pin.slot, pin_seat_spec(pin, pin.slot)),
            troops: days.troops,
        },
        Day::Troops => ThreeDays {
            construction: days.construction,
            research: days.research,
            troops: days.troops.insert(pin.slot, pin_seat_spec(pin, pin.slot)),
        },
    }
}

/// The three days after the first `upto` pins have been entered in
/// order.
pub open spec fn enter_pins(days: ThreeDays, pins: Seq<PinView>, upto: int, last: u8) -> ThreeDays
    decreases upto,
{
    if upto <= 0 {
        days
    } else {
        enter_pin(enter_pins(days, pins, upto - 1, last), pins, pins[upto - 1], last)
    }
}

/// The schedules of the three days.
pub struct ScheduledDays {
    pub construction: DaySchedule,
    pub research: DaySchedule,
    pub troops: DaySchedule,
}

/// The mathematical content of a [`ScheduledDays`].
pub struct ScheduledDaysView {
    pub construction: DayScheduleView,
    pub research: DayScheduleView,
    pub troops: DayScheduleView,
}

impl View for ScheduledDays {
    type V = ScheduledDaysView;

    open spec fn view(&self) -> ScheduledDaysView {
        ScheduledDaysView {
            construction: self.construction@,
            research: self.research@,
            troops: self.troops@,
        }
    }
}

/// The schedules of the three days with pins.
///
/// Each day is scheduled for the entries whose players are not kept out
/// of it, with its closed slots closed; construction takes `last` as its
/// last slot, and research follows construction.  The pins are entered
/// into what comes out.
pub open spec fn pinned_schedules(
    entries: Seq<EntryView>,
    pins: Seq<PinView>,
    last: u8,
    existing_construction: Set<u8>,
    existing_research: Set<u8>,
    existing_troops: Set<u8>,
) -> ScheduledDaysView {
    let construction = construction_schedule(
        unscheduled(entries, excluded_ids(pins, Day::Construction, last)),
        closed_slots(pins, Day::Construction, last, existing_construction),
        Some(last),
    );
    let research = research_schedule(
        unscheduled(entries, excluded_ids(pins, Day::Research, last)),
        construction.appointments,
        closed_slots(pins, Day::Research, last, existing_research),
    );
    let troops = generic_schedule(
        unscheduled(entries, excluded_ids(pins, Day::Troops, last)),
        Day::Troops,
        closed_slots(pins, Day::Troops, last, existing_troops),
        Set::empty(),
    );
    let entered = enter_pins(
        ThreeDays {
            construction: construction.appointments,
            research: research.appointments,
            troops: troops.appointments,
        },
        pins,
        pins.len() as int,
        last,
    );
    ScheduledDaysView {
        construction: DayScheduleView {
            appointments: entered.construction,
            unassigned: construction.unassigned,
        },
        research: DayScheduleView {
            appointments: entered.research,
            unassigned: research.unassigned,
        },
        troops: DayScheduleView { appointments: entered.troops, unassigned: troops.unassigned },
    }
}

/// Tells whether a pin belongs to a group.
pub fn pin_in_group(pin: &PinnedSlot, group: PinGroup, last: u8) -> (r: bool)
    ensures
        r == in_group(pin@, group, last),
{
    match group {
        PinGroup::OfDay(day) => pin.day == day,
        PinGroup::ResearchFirst => pin.day == Day::Research && pin.slot == HANDOFF_SLOT,
        PinGroup::ConstructionLast => pin.day == Day::Construction && pin.slot == last,
    }
}

/// Lists the players of the pins of a group, in order.
pub fn players_of_group(pins: &[PinnedSlot], group: PinGroup, last: u8) -> (ids: Vec<String>)
    ensures
        strings_view(ids@) == group_ids(pins_view(pins@), group, last),
{
    let ghost all = pins_view(pins@);
    let mut ids: Vec<String> = Vec::new();
    let mut i: usize = 0;
    assert(all.take(0) =~= Seq::<PinView>::empty());
    assert(strings_view(ids@) =~= Seq::<Seq<char>>::empty());
    while i < pins.len()
        invariant
            i <= pins.len(),
            all == pins_view(pins@),
            strings_view(ids@) == group_ids(all.take(i as int), group, last),
        decreases pins.len() - i,
    {
        let ghost before = strings_view(ids@);
        proof {
            assert(all.take(i + 1).drop_last() =~= all.take(i as int));
            assert(all.take(i + 1).last() == pins@[i as int]@);
        }
        if pin_in_group(&pins[i], group, last) {
            ids.push(pins[i].player_id.clone());
            assert(strings_view(ids@) =~= before.push(pins@[i as int]@.player_id));
        }
        i += 1;
    }
    assert(all.take(all.len() as int) =~= all);
    ids
}

/// Tells whether player `id` has a pin on `day`.
pub fn player_has_pin(pins: &[PinnedSlot], day: Day, id: &String) -> (r: bool)
    ensures
        r == has_pin(pins_view(pins@), day, id@),
{
    let ghost all = pins_view(pins@);
    let mut i: usize = 0;
    while i < pins.len()
        invariant
            i <= pins.len(),
            all == pins_view(pins@),
            forall|k: int| 0 <= k < i ==> !((#[trigger] all[k]).day == day && all[k].player_id == id@),
        decreases pins.len() - i,
    {
        if pins[i].day == day && pins[i].player_id == *id {
            assert(all[i as int].day == day && all[i as int].player_id == id@);
            return true;
        }
        i += 1;
    }
    false
}

/// Tells whether some player pinned on research's first slot has no pin
/// on construction day.
fn first_slot_pulls_last(pins: &[PinnedSlot]) -> (r: bool)
    ensures
        r == first_pulls_last(pins_view(pins@)),
{
    let ghost all = pins_view(pins@);
    let mut i: usize = 0;
    while i < pins.len()
        invariant
            i <= pins.len(),
            all == pins_view(pins@),
            forall|k: int|
                0 <= k < i ==> !((#[trigger] all[k]).day == Day::Research && all[k].slot
                    == HANDOFF_SLOT && !has_pin(all, Day::Construction, all[k].player_id)),
        decreases pins.len() - i,
    {
        if pins[i].day == Day::Research && pins[i].slot == HANDOFF_SLOT && !player_has_pin(
            pins,
            Day::Construction,
            &pins[i].player_id,
        ) {
            assert(all[i as int].day == Day::Research && all[i as int].slot == HANDOFF_SLOT
                && !has_pin(all, Day::Construction, all[i as int].player_id));
            return true;
        }
        i += 1;
    }
    false
}

/// Collects the slots that are closed to a day's run.
pub fn closed_slots_of(pins: &[PinnedSlot], day: Day, last: u8, existing: &HashSet<u8>) -> (closed:
    HashSet<u8>)
    ensures
        closed@ == closed_slots(pins_view(pins@), day, last, existing@),
{
    let ghost all = pins_view(pins@);
    let mut closed = copy_slots(existing);
    let mut i: usize = 0;
    while i < pins.len()
        invariant
            i <= pins.len(),
            all == pins_view(pins@),
            forall|s: u8|
                closed@.contains(s) <==> existing@.contains(s) || exists|k: int|
                    0 <= k < i && (#[trigger] all[k]).day == day && all[k].slot == s,
        decreases pins.len() - i,
    {
        if pins[i].day == day {
            let ghost before = closed@;
            closed.insert(pins[i].slot);
            proof {
                assert forall|s: u8|
                    closed@.contains(s) <==> existing@.contains(s) || exists|k: int|
                        0 <= k < i + 1 && (#[trigger] all[k]).day == day && all[k].slot == s by {
                    if s == pins@[i as int].slot {
                        assert(all[i as int].day == day && all[i as int].slot == s);
                    }
                    if before.contains(s) && !existing@.contains(s) {
                        let k = choose|k: int|
                            0 <= k < i && (#[trigger] all[k]).day == day && all[k].slot == s;
                        assert(0 <= k < i + 1);
                    }
                }
            }
        }
        i += 1;
    }
    let ghost pinned = closed@;
    match day {
        Day::Research => {
            let linked = players_of_group(pins, PinGroup::ConstructionLast, last);
            if linked.len() > 0 {
                closed.insert(HANDOFF_SLOT);
            }
        },
        Day::Construction => {
            if first_slot_pulls_last(pins) {
                closed.insert(last);
            }
        },
        Day::Troops => {},
    }
    proof {
        assert forall|s: u8| pinned.contains(s) <==> existing@.contains(s) || pins_slot(
            all,
            day,
            s,
        ) by {
            if pins_slot(all, day, s) {
                let k = choose|k: int|
                    0 <= k < all.len() && (#[trigger] all[k]).day == day && all[k].slot == s;
                assert(0 <= k < pins@.len());
            }
        }
        assert(closed@ =~= closed_slots(all, day, last, existing@));
    }
    closed
}

/// Lists the players who are kept out of a day's run.
pub fn excluded_players(pins: &[PinnedSlot], day: Day, last: u8) -> (ids: Vec<String>)
    ensures
        strings_view(ids@) == excluded_ids(pins_view(pins@), day, last),
{
    let mut ids = players_of_group(pins, PinGroup::OfDay(day), last);
    let ghost front = strings_view(ids@);
    let mut more: Vec<String> = match day {
        Day::Construction => players_of_group(pins, PinGroup::ResearchFirst, last),
        Day::Research => players_of_group(pins, PinGroup::ConstructionLast, last),
        Day::Troops => Vec::new(),
    };
    let ghost back = strings_view(more@);
    assert(day == Day::Troops ==> back =~= Seq::<Seq<char>>::empty());
    ids.append(&mut more);
    assert(strings_view(ids@) =~= front + back);
    ids
}

/// Tells whether a seat is held by another player than `id`.
fn seat_held_by_other(schedule: Option<&DaySchedule>, slot: u8, id: &String) -> (r: bool)
    ensures
        r == held_by_other(optional_appointments(schedule), slot, id@),
{
    match schedule {
        Some(day) => match day.appointments.get(&slot) {
            Some(appt) => appt.player_id != *id,
            None => false,
        },
        None => false,
    }
}

/// Finds the first thing that stands against a set of pins, if
/// anything.  `append` tells whether the run adds to the earlier
/// schedules that are given.
pub fn check_pins(
    pins: &[PinnedSlot],
    last: u8,
    append: bool,
    construction: Option<&DaySchedule>,
    research: Option<&DaySchedule>,
    troops: Option<&DaySchedule>,
) -> (fault: Option<PinFault>)
    ensures
        fault == pin_fault(
            pins_view(pins@),
            last,
            append,
            optional_appointments(construction),
            optional_appointments(research),
            optional_appointments(troops),
        ),
{
    let ghost all = pins_view(pins@);
    let ghost c = optional_appointments(construction);
    let ghost r = optional_appointments(research);
    let ghost t = optional_appointments(troops);
    let mut linked = players_of_group(pins, PinGroup::ResearchFirst, last);
    if linked.len() > 1 {
        return Some(PinFault::ResearchFirstTwice);
    }
    let ghost front = strings_view(linked@);
    let mut behind = players_of_group(pins, PinGroup::ConstructionLast, last);
    let ghost back = strings_view(behind@);
    linked.append(&mut behind);
    assert(strings_view(linked@) =~= front + back);
    let ghost ids = strings_view(linked@);
    let mut j: usize = 1;
    while j < linked.len()
        invariant
            1 <= j,
            all == pins_view(pins@),
            ids == strings_view(linked@),
            ids == linked_ids(all, last),
            group_ids(all, PinGroup::ResearchFirst, last).len() <= 1,
            forall|k: int| 0 <= k < j && k < ids.len() ==> #[trigger] ids[k] == ids[0],
        decreases linked.len() - j,
    {
        if linked[j] != linked[0] {
            assert(ids[j as int] != ids[0]);
            return Some(PinFault::LinkTwice);
        }
        j += 1;
    }
    assert(!names_two(ids));
    if !append {
        return None;
    }
    let mut i: usize = 0;
    while i < pins.len()
        invariant
            i <= pins.len(),
            all == pins_view(pins@),
            c == optional_appointments(construction),
            r == optional_appointments(research),
            t == optional_appointments(troops),
            append,
            ids == linked_ids(all, last),
            !names_two(ids),
            group_ids(all, PinGroup::ResearchFirst, last).len() <= 1,
            first_taken_from(all, 0, c, r, t) == first_taken_from(all, i as int, c, r, t),
        decreases pins.len() - i,
    {
        let earlier = match pins[i].day {
            Day::Construction => construction,
            Day::Research => research,
            Day::Troops => troops,
        };
        if seat_held_by_other(earlier, pins[i].slot, &pins[i].player_id) {
            return Some(PinFault::SlotTaken(i));
        }
        i += 1;
    }
    if linked.len() == 0 {
        return None;
    }
    if seat_held_by_other(research, HANDOFF_SLOT, &linked[0]) {
        return Some(PinFault::ResearchFirstTaken);
    }
    if seat_held_by_other(construction, last, &linked[0]) {
        return Some(PinFault::ConstructionLastTaken);
    }
    None
}

/// Builds the appointment that enters a pinned player in `slot`.
pub fn pin_seat(pin: &PinnedSlot, slot: u8) -> (seat: ScheduledAppointment)
    ensures
        seat@ == pin_seat_spec(pin@, slot),
{
    ScheduledAppointment {
        player_id: pin.player_id.clone(),
        name: pin.name.clone(),
        alliance: pin.alliance.clone(),
        slot,
        priority_score: PINNED_SCORE,
    }
}

/// Takes a player out of a day's appointments.
pub fn remove_player(seats: &mut HashMap<u8, ScheduledAppointment>, id: &String)
    ensures
        appointments_view(final(seats)@) == without_seats_of(
            appointments_view(old(seats)@),
            id@,
        ),
{
    let ghost before = seats@;
    let mut s: u16 = 0;
    while s < 256
        invariant
            s <= 256,
            forall|t: u8|
                #[trigger] seats@.contains_key(t) <==> before.contains_key(t) && (t >= s
                    || before[t]@.player_id != id@),
            forall|t: u8| #[trigger] seats@.contains_key(t) ==> seats@[t] == before[t],
        decreases 256 - s,
    {
        let slot = s as u8;
        let gone = match seats.get(&slot) {
            Some(appt) => appt.player_id == *id,
            None => false,
        };
        if gone {
            seats.remove(&slot);
        }
        s += 1;
    }
    proof {
        let after = appointments_view(seats@);
        let target = without_seats_of(appointments_view(before), id@);
        assert forall|t: u8| after.contains_key(t) <==> target.contains_key(t) by {
            assert(seats@.contains_key(t) <==> before.contains_key(t) && (t >= s || before[t]@.player_id
                != id@));
        }
        assert forall|t: u8| after.contains_key(t) implies after[t] == target[t] by {
            assert(seats@.contains_key(t));
        }
        assert(after =~= target);
    }
}

/// The three days that three maps of appointments stand for.
pub open spec fn three_days_of(
    construction: Map<u8, ScheduledAppointment>,
    research: Map<u8, ScheduledAppointment>,
    troops: Map<u8, ScheduledAppointment>,
) -> ThreeDays {
    ThreeDays {
        construction: appointments_view(construction),
        research: appointments_view(research),
        troops: appointments_view(troops),
    }
}

/// Enters the pins into the appointments of the three days, in order.
pub fn enter_pinned(
    pins: &[PinnedSlot],
    last: u8,
    construction: &mut HashMap<u8, ScheduledAppointment>,
    research: &mut HashMap<u8, ScheduledAppointment>,
    troops: &mut HashMap<u8, ScheduledAppointment>,
)
    ensures
        three_days_of(final(construction)@, final(research)@, final(troops)@) == enter_pins(
            three_days_of(old(construction)@, old(research)@, old(troops)@),
            pins_view(pins@),
            pins@.len() as int,
            last,
        ),
{
    let ghost all = pins_view(pins@);
    let ghost start = three_days_of(construction@, research@, troops@);
    let mut i: usize = 0;
    while i < pins.len()
        invariant
            i <= pins.len(),
            all == pins_view(pins@),
            three_days_of(construction@, research@, troops@) == enter_pins(
                start,
                all,
                i as int,
                last,
            ),
        decreases pins.len() - i,
    {
        let pin = &pins[i];
        let ghost days = three_days_of(construction@, research@, troops@);
        let ghost c = appointments_view(construction@);
        let ghost r = appointments_view(research@);
        let ghost t = appointments_view(troops@);
        assert(all[i as int] == pin@);
        match pin.day {
            Day::Construction => {
                construction.insert(pin.slot, pin_seat(pin, pin.slot));
                assert(appointments_view(construction@) =~= c.insert(
                    pin.slot,
                    pin_seat_spec(pin@, pin.slot),
                ));
                if pin.slot == last && !player_has_pin(pins, Day::Research, &pin.player_id) {
                    research.insert(HANDOFF_SLOT, pin_seat(pin, HANDOFF_SLOT));
                    assert(appointments_view(research@) =~= r.insert(
                        HANDOFF_SLOT,
                        pin_seat_spec(pin@, HANDOFF_SLOT),
                    ));
                }
            },
            Day::Research => {
                research.insert(pin.slot, pin_seat(pin, pin.slot));
                assert(appointments_view(research@) =~= r.insert(
                    pin.slot,
                    pin_seat_spec(pin@, pin.slot),
                ));
                if pin.slot == HANDOFF_SLOT && !player_has_pin(
                    pins,
                    Day::Construction,
                    &pin.player_id,
                ) {
                    remove_player(construction, &pin.player_id);
                    let ghost kept = appointments_view(construction@);
                    construction.insert(last, pin_seat(pin, last));
                    assert(appointments_view(construction@) =~= kept.insert(
                        last,
                        pin_seat_spec(pin@, last),
                    ));
                }
            },
            Day::Troops => {
                troops.insert(pin.slot, pin_seat(pin, pin.slot));
                assert(appointments_view(troops@) =~= t.insert(
                    pin.slot,
                    pin_seat_spec(pin@, pin.slot),
                ));
            },
        }
        assert(three_days_of(construction@, research@, troops@) == enter_pin(
            days,
            all,
            pin@,
            last,
        ));
        i += 1;
    }
}

/// Schedules the three days with pins: each day for the entries whose
/// players are not kept out of it, with its closed slots closed, and
/// then the pins entered.  `last` is construction's last slot; the
/// `existing` sets are the slots that an earlier schedule has filled.
pub fn schedule_with_pins(
    entries: &[AppointmentEntry],
    pins: &[PinnedSlot],
    last: u8,
    existing_construction: &HashSet<u8>,
    existing_research: &HashSet<u8>,
    existing_troops: &HashSet<u8>,
) -> (days: ScheduledDays)
    ensures
        days@ == pinned_schedules(
            entries_view(entries@),
            pins_view(pins@),
            last,
            existing_construction@,
            existing_research@,
            existing_troops@,
        ),
{
    let nobody: HashSet<u8> = HashSet::new();
    let construction_closed = closed_slots_of(pins, Day::Construction, last, existing_construction);
    let research_closed = closed_slots_of(pins, Day::Research, last, existing_research);
    let troops_closed = closed_slots_of(pins, Day::Troops, last, existing_troops);
    let construction_out = excluded_players(pins, Day::Construction, last);
    let research_out = excluded_players(pins, Day::Research, last);
    let troops_out = excluded_players(pins, Day::Troops, last);
    let construction_entries = unscheduled_entries(entries, &construction_out);
    let research_entries = unscheduled_entries(entries, &research_out);
    let troops_entries = unscheduled_entries(entries, &troops_out);
    let construction = schedule_construction_refs(
        construction_entries.as_slice(),
        &construction_closed,
        Some(last),
    );
    let research = schedule_research_refs(
        research_entries.as_slice(),
        &construction,
        &research_closed,
    );
    let troops = schedule_day_refs(troops_entries.as_slice(), Day::Troops, &troops_closed, &nobody);
    let DaySchedule { appointments: c_seats, unassigned: c_left } = construction;
    let DaySchedule { appointments: r_seats, unassigned: r_left } = research;
    let DaySchedule { appointments: t_seats, unassigned: t_left } = troops;
    let mut c_seats = c_seats;
    let mut r_seats = r_seats;
    let mut t_seats = t_seats;
    enter_pinned(pins, last, &mut c_seats, &mut r_seats, &mut t_seats);
    ScheduledDays {
        construction: DaySchedule { appointments: c_seats, unassigned: c_left },
        research: DaySchedule { appointments: r_seats, unassigned: r_left },
        troops: DaySchedule { appointments: t_seats, unassigned: t_left },
    }
}

} // verus!
