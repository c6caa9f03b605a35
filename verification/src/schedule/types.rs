//! The data model of a day's schedule.

use std::collections::HashMap;
use vstd::prelude::*;
use crate::parser::{AppointmentEntry, EntryView};

verus! {

/// A candidate seated in a slot.
#[derive(Debug, Clone)]
pub struct ScheduledAppointment {
    pub player_id: String,
    pub name: String,
    pub alliance: String,
    pub slot: u8,
    pub priority_score: u32,
}

/// The mathematical content of a [`ScheduledAppointment`].
pub struct AppointmentView {
    pub player_id: Seq<char>,
    pub name: Seq<char>,
    pub alliance: Seq<char>,
    pub slot: u8,
    pub priority_score: u32,
}

impl View for ScheduledAppointment {
    type V = AppointmentView;

    open spec fn view(&self) -> AppointmentView {
        AppointmentView {
            player_id: self.player_id@,
            name: self.name@,
            alliance: self.alliance@,
            slot: self.slot,
            priority_score: self.priority_score,
        }
    }
}

/// The outcome for one day: who sits where, and who could not be seated.
#[derive(Debug, Clone)]
pub struct DaySchedule {
    /// Slot to appointment.
    pub appointments: HashMap<u8, ScheduledAppointment>,
    /// Player ids that found no seat, in the order they were processed.
    pub unassigned: Vec<String>,
}

/// The mathematical content of a [`DaySchedule`].
pub struct DayScheduleView {
    pub appointments: Map<u8, AppointmentView>,
    pub unassigned: Seq<Seq<char>>,
}

/// The views of the appointments of a slot map, slot by slot.
pub open spec fn appointments_view(m: Map<u8, ScheduledAppointment>) -> Map<u8, AppointmentView> {
    Map::new(|s: u8| m.contains_key(s), |s: u8| m[s]@)
}

/// The views of a list of strings, in order.
pub open spec fn strings_view(v: Seq<String>) -> Seq<Seq<char>> {
    Seq::new(v.len(), |i: int| v[i]@)
}

impl View for DaySchedule {
    type V = DayScheduleView;

    open spec fn view(&self) -> DayScheduleView {
        DayScheduleView {
            appointments: appointments_view(self.appointments@),
            unassigned: strings_view(self.unassigned@),
        }
    }
}

/// The working state of a day's run: who sits where, and which slots are
/// taken (occupied, or reserved from the outset).
pub struct Board {
    pub seats: Map<u8, AppointmentView>,
    pub used: Set<u8>,
}

/// One leg of a relocation chain: `player_id` leaves `from_slot` for
/// `to_slot`.
#[derive(Debug, Clone)]
pub struct Move {
    pub player_id: String,
    pub from_slot: u8,
    pub to_slot: u8,
}

/// The mathematical content of a [`Move`].
pub struct MoveView {
    pub player_id: Seq<char>,
    pub from_slot: u8,
    pub to_slot: u8,
}

impl View for Move {
    type V = MoveView;

    open spec fn view(&self) -> MoveView {
        MoveView { player_id: self.player_id@, from_slot: self.from_slot, to_slot: self.to_slot }
    }
}

/// The views of a list of moves, in order.
pub open spec fn moves_view(v: Seq<Move>) -> Seq<MoveView> {
    Seq::new(v.len(), |i: int| v[i]@)
}

/// The three day categories.  A day selects which wish, which list of
/// acceptable slots and which priority score of a candidate count.
#[derive(Debug, Clone, Copy, PartialEq, Eq, Structural)]
pub enum Day {
    Construction,
    Research,
    Troops,
}

impl Day {
    /// Whether the candidate asked for an appointment on this day.
    pub open spec fn wants_spec(self, e: EntryView) -> bool {
        match self {
            Day::Construction => e.wants_construction,
            Day::Research => e.wants_research,
            Day::Troops => e.wants_troops,
        }
    }

    /// The slots the candidate accepts on this day, in listed order.
    pub open spec fn slots_spec(self, e: EntryView) -> Seq<u8> {
        match self {
            Day::Construction => e.construction_available_slots,
            Day::Research => e.research_available_slots,
            Day::Troops => e.troops_available_slots,
        }
    }

    /// The candidate's priority score on this day.
    pub open spec fn score_spec(self, e: EntryView) -> u32 {
        match self {
            Day::Construction => e.construction_score,
            Day::Research => e.research_score,
            Day::Troops => e.troops_speedups,
        }
    }

    /// Whether the candidate takes part in this day's run: they asked for
    /// the day and listed at least one slot.
    pub open spec fn is_candidate(self, e: EntryView) -> bool {
        self.wants_spec(e) && self.slots_spec(e).len() > 0
    }

    /// The appointment that seats `e` in `slot` on this day.
    pub open spec fn seat_spec(self, e: EntryView, slot: u8) -> AppointmentView {
        AppointmentView {
            player_id: e.player_id,
            name: e.name,
            alliance: e.alliance,
            slot,
            priority_score: self.score_spec(e),
        }
    }

    /// Tells whether the candidate asked for an appointment on this day.
    pub fn wants(self, e: &AppointmentEntry) -> (r: bool)
        ensures
            r == self.wants_spec(e@),
    {
        match self {
            Day::Construction => e.wants_construction,
            Day::Research => e.wants_research,
            Day::Troops => e.wants_troops,
        }
    }

    /// Gives the slots the candidate accepts on this day.
    pub fn available_slots<'a>(self, e: &'a AppointmentEntry) -> (r: &'a Vec<u8>)
        ensures
            r@ == self.slots_spec(e@),
    {
        match self {
            Day::Construction => &e.construction_available_slots,
            Day::Research => &e.research_available_slots,
            Day::Troops => &e.troops_available_slots,
        }
    }

    /// Gives the candidate's priority score on this day.
    pub fn priority_score(self, e: &AppointmentEntry) -> (r: u32)
        ensures
            r == self.score_spec(e@),
    {
        match self {
            Day::Construction => e.construction_score,
            Day::Research => e.research_score,
            Day::Troops => e.troops_speedups,
        }
    }

    /// Tells whether the candidate takes part in this day's run.
    pub fn is_participant(self, e: &AppointmentEntry) -> (r: bool)
        ensures
            r == self.is_candidate(e@),
    {
        self.wants(e) && self.available_slots(e).len() > 0
    }

    /// Builds the appointment that seats `e` in `slot` on this day.
    pub fn seat(self, e: &AppointmentEntry, slot: u8) -> (r: ScheduledAppointment)
        ensures
            r@ == self.seat_spec(e@, slot),
    {
        ScheduledAppointment {
            player_id: e.player_id.clone(),
            name: e.name.clone(),
            alliance: e.alliance.clone(),
            slot,
            priority_score: self.priority_score(e),
        }
    }
}

} // verus!
