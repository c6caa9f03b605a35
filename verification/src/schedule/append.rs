//! Support for adding to an earlier schedule: which slots it has filled,
//! and which players it has seated.

use std::collections::{HashMap, HashSet};
use vstd::prelude::*;
use vstd::string::StringExecFns;
use crate::parser::{entries_view, roster_view, AppointmentEntry, EntryView};
use crate::text::{decimal, push_decimal};
use super::move_chain::contains_id;
use super::types::{
    appointments_view, strings_view, AppointmentView, DaySchedule, ScheduledAppointment,
};

verus! {

/// The schedules of an account's server, as they are kept between runs.
#[derive(Debug, Clone)]
pub struct ScheduleData {
    pub construction_schedule: Option<DaySchedule>,
    pub research_schedule: Option<DaySchedule>,
    pub troops_schedule: Option<DaySchedule>,
    pub entries: Option<Vec<AppointmentEntry>>,
    /// The players seated in the schedules, where the list was stored
    /// with them.
    pub scheduled_player_ids: Option<Vec<String>>,
}

/// The key under which the schedules of an account's server are kept:
/// the account name, a colon, and the server number.
pub open spec fn schedule_key_spec(account_name: Seq<char>, server_number: u32) -> Seq<char> {
    account_name + seq![':'] + decimal(server_number as nat)
}

/// Builds the key under which the schedules of an account's server are
/// kept.
pub fn schedule_key(account_name: &str, server_number: u32) -> (key: String)
    ensures
        key@ == schedule_key_spec(account_name@, server_number),
{
    proof {
        reveal_strlit(":");
    }
    let mut key = String::from_str(account_name);
    key.append(":");
    let ghost front = key@;
    push_decimal(&mut key, server_number);
    assert(key@ =~= schedule_key_spec(account_name@, server_number));
    key
}

/// The slots that a schedule has filled.
pub fn occupied_slots(schedule: &DaySchedule) -> (slots: HashSet<u8>)
    ensures
        slots@ == schedule@.appointments.dom(),
{
    let mut slots: HashSet<u8> = HashSet::new();
    let mut s: u16 = 0;
    while s < 256
        invariant
            s <= 256,
            forall|t: u8| slots@.contains(t) <==> schedule.appointments@.contains_key(t) && t < s,
        decreases 256 - s,
    {
        let slot = s as u8;
        if schedule.appointments.contains_key(&slot) {
            slots.insert(slot);
        }
        s += 1;
    }
    assert(slots@ =~= schedule@.appointments.dom());
    slots
}

/// The ids of `ids` that `seen` does not hold yet, each once, in order of
/// first occurrence, behind `seen`.
pub open spec fn with_new_ids(seen: Seq<Seq<char>>, ids: Seq<Seq<char>>) -> Seq<Seq<char>>
    decreases ids.len(),
{
    if ids.len() == 0 {
        seen
    } else {
        let init = with_new_ids(seen, ids.drop_last());
        if init.contains(ids.last()) {
            init
        } else {
            init.push(ids.last())
        }
    }
}

/// The player ids of the appointments in the slots below `below`, in
/// ascending order of slot.
pub open spec fn seated_ids(seats: Map<u8, AppointmentView>, below: int) -> Seq<Seq<char>>
    decreases below,
{
    if below <= 0 {
        Seq::empty()
    } else {
        let init = seated_ids(seats, below - 1);
        if seats.contains_key((below - 1) as u8) {
            init.push(seats[(below - 1) as u8].player_id)
        } else {
            init
        }
    }
}

/// The player ids of an optional schedule, in ascending order of slot.
pub open spec fn schedule_ids(schedule: Option<DaySchedule>) -> Seq<Seq<char>> {
    match schedule {
        Some(s) => seated_ids(s@.appointments, 256),
        None => Seq::empty(),
    }
}

/// The players seated in the three schedules, each once.
pub open spec fn derived_ids(data: &ScheduleData) -> Seq<Seq<char>> {
    with_new_ids(
        with_new_ids(
            with_new_ids(Seq::empty(), schedule_ids(data.construction_schedule)),
            schedule_ids(data.research_schedule),
        ),
        schedule_ids(data.troops_schedule),
    )
}

/// The players that count as scheduled: those of the stored list where
/// there is one, those seated in the three schedules otherwise; each
/// once.
pub open spec fn scheduled_ids(data: &ScheduleData) -> Seq<Seq<char>> {
    match data.scheduled_player_ids {
        Some(ids) => with_new_ids(Seq::empty(), strings_view(ids@)),
        None => derived_ids(data),
    }
}

/// Nothing occurs twice among the ids that `with_new_ids` gives, where
/// nothing occurred twice before.
pub proof fn law_ids_listed_once(seen: Seq<Seq<char>>, ids: Seq<Seq<char>>)
    requires
        seen.no_duplicates(),
    ensures
        with_new_ids(seen, ids).no_duplicates(),
        forall|id: Seq<char>|
            with_new_ids(seen, ids).contains(id) <==> seen.contains(id) || ids.contains(id),
    decreases ids.len(),
{
    let all = with_new_ids(seen, ids);
    if ids.len() == 0 {
    } else {
        let init = with_new_ids(seen, ids.drop_last());
        law_ids_listed_once(seen, ids.drop_last());
        assert forall|id: Seq<char>| all.contains(id) <==> seen.contains(id) || ids.contains(
            id,
        ) by {
            if ids.contains(id) {
                let k = choose|k: int| 0 <= k < ids.len() && ids[k] == id;
                if k < ids.len() - 1 {
                    assert(ids.drop_last()[k] == id);
                }
            }
            if ids.drop_last().contains(id) {
                let k = choose|k: int| 0 <= k < ids.drop_last().len() && ids.drop_last()[k] == id;
                assert(ids[k] == id);
            }
            if init.contains(id) {
                let k = choose|k: int| 0 <= k < init.len() && init[k] == id;
                assert(all[k] == id);
            }
            if !init.contains(ids.last()) {
                assert(all[init.len() as int] == ids.last());
                assert(ids[ids.len() - 1] == ids.last());
            }
            if all.contains(id) {
                let k = choose|k: int| 0 <= k < all.len() && all[k] == id;
                if k < init.len() {
                    assert(init[k] == id);
                } else {
                    assert(ids[ids.len() - 1] == id);
                }
            }
        }
    }
}

/// Adds the player ids of a schedule that `ids` does not hold yet.
fn note_schedule(ids: &mut Vec<String>, schedule: &Option<DaySchedule>)
    ensures
        strings_view(final(ids)@) == with_new_ids(strings_view(old(ids)@), schedule_ids(*schedule)),
{
    match schedule {
        None => {},
        Some(day) => {
            let ghost start = strings_view(ids@);
            let ghost seats = day@.appointments;
            let mut s: u16 = 0;
            while s < 256
                invariant
                    s <= 256,
                    seats == day@.appointments,
                    strings_view(ids@) == with_new_ids(start, seated_ids(seats, s as int)),
                decreases 256 - s,
            {
                let slot = s as u8;
                let ghost before = strings_view(ids@);
                let ghost so_far = seated_ids(seats, s as int);
                match day.appointments.get(&slot) {
                    Some(appt) => {
                        proof {
                            let more = seated_ids(seats, s + 1);
                            assert(more =~= so_far.push(appt@.player_id));
                            assert(more.drop_last() =~= so_far);
                        }
                        if !contains_id(ids, &appt.player_id) {
                            ids.push(appt.player_id.clone());
                            assert(strings_view(ids@) =~= before.push(appt@.player_id));
                        }
                    },
                    None => {},
                }
                s += 1;
            }
        },
    }
}

/// Lists the players seated in the three schedules, each once.
pub fn derive_scheduled_player_ids(data: &ScheduleData) -> (ids: Vec<String>)
    ensures
        strings_view(ids@) == derived_ids(data),
{
    let mut ids: Vec<String> = Vec::new();
    assert(strings_view(ids@) =~= Seq::<Seq<char>>::empty());
    note_schedule(&mut ids, &data.construction_schedule);
    note_schedule(&mut ids, &data.research_schedule);
    note_schedule(&mut ids, &data.troops_schedule);
    ids
}

/// Lists the players that count as scheduled, each once: the stored list
/// where there is one, the players seated in the schedules otherwise.
pub fn get_scheduled_player_ids(data: &ScheduleData) -> (ids: Vec<String>)
    ensures
        strings_view(ids@) == scheduled_ids(data),
{
    match &data.scheduled_player_ids {
        Some(stored) => {
            let ghost all = strings_view(stored@);
            let mut ids: Vec<String> = Vec::new();
            let mut i: usize = 0;
            assert(strings_view(ids@) =~= Seq::<Seq<char>>::empty());
            assert(all.take(0) =~= Seq::<Seq<char>>::empty());
            while i < stored.len()
                invariant
                    i <= stored.len(),
                    all == strings_view(stored@),
                    strings_view(ids@) == with_new_ids(Seq::empty(), all.take(i as int)),
                decreases stored.len() - i,
            {
                let ghost before = strings_view(ids@);
                proof {
                    assert(all.take(i + 1).drop_last() =~= all.take(i as int));
                    assert(all.take(i + 1).last() == stored@[i as int]@);
                }
                if !contains_id(&ids, &stored[i]) {
                    ids.push(stored[i].clone());
                    assert(strings_view(ids@) =~= before.push(stored@[i as int]@));
                }
                i += 1;
            }
            assert(all.take(all.len() as int) =~= all);
            ids
        },
        None => derive_scheduled_player_ids(data),
    }
}

/// The entries whose player is not among `scheduled`, in the same
/// order.
pub open spec fn unscheduled(entries: Seq<EntryView>, scheduled: Seq<Seq<char>>) -> Seq<
    EntryView,
>
    decreases entries.len(),
{
    if entries.len() == 0 {
        Seq::empty()
    } else {
        let init = unscheduled(entries.drop_last(), scheduled);
        if scheduled.contains(entries.last().player_id) {
            init
        } else {
            init.push(entries.last())
        }
    }
}

/// Selects the entries whose player is not scheduled yet.
pub fn unscheduled_entries<'a>(entries: &'a [AppointmentEntry], scheduled: &Vec<String>) -> (rest:
    Vec<&'a AppointmentEntry>)
    ensures
        roster_view(rest@) == unscheduled(
            entries_view(entries@),
            strings_view(scheduled@),
        ),
{
    let ghost all = entries_view(entries@);
    let mut rest: Vec<&'a AppointmentEntry> = Vec::new();
    let mut i: usize = 0;
    assert(all.take(0) =~= Seq::<EntryView>::empty());
    while i < entries.len()
        invariant
            i <= entries.len(),
            all == entries_view(entries@),
            roster_view(rest@) =~= unscheduled(
                all.take(i as int),
                strings_view(scheduled@),
            ),
        decreases entries.len() - i,
    {
        let ghost before = roster_view(rest@);
        proof {
            assert(all.take(i + 1).drop_last() =~= all.take(i as int));
            assert(all.take(i + 1).last() == entries@[i as int]@);
        }
        if !contains_id(scheduled, &entries[i].player_id) {
            rest.push(&entries[i]);
            assert(roster_view(rest@) =~= before.push(entries@[i as int]@));
        }
        i += 1;
    }
    assert(all.take(all.len() as int) =~= all);
    rest
}

/// The appointments after new ones have been added to earlier ones: an
/// earlier appointment keeps its slot, and a new one fills a slot that
/// was empty.
pub open spec fn merged_appointments(
    earlier: Map<u8, AppointmentView>,
    new: Map<u8, AppointmentView>,
) -> Map<u8, AppointmentView> {
    Map::new(
        |s: u8| earlier.contains_key(s) || new.contains_key(s),
        |s: u8|
            if earlier.contains_key(s) {
                earlier[s]
            } else {
                new[s]
            },
    )
}

/// The appointments of an optional schedule.
pub open spec fn optional_appointments(schedule: Option<&DaySchedule>) -> Map<u8, AppointmentView> {
    match schedule {
        Some(s) => s@.appointments,
        None => Map::empty(),
    }
}

/// Nothing is lost in a merge where the new schedule was made with the
/// earlier slots closed: every new appointment is in the result under
/// its own slot, beside every earlier one.
pub proof fn law_merge_loses_nothing(earlier: Map<u8, AppointmentView>, new: Map<u8, AppointmentView>)
    requires
        forall|s: u8| earlier.contains_key(s) ==> !new.contains_key(s),
    ensures
        forall|s: u8|
            new.contains_key(s) ==> merged_appointments(earlier, new).contains_key(s)
                && merged_appointments(earlier, new)[s] == new[s],
        forall|s: u8|
            earlier.contains_key(s) ==> merged_appointments(earlier, new).contains_key(s)
                && merged_appointments(earlier, new)[s] == earlier[s],
{
}

/// Copies an appointment.
pub fn copy_appointment(a: &ScheduledAppointment) -> (copy: ScheduledAppointment)
    ensures
        copy@ == a@,
{
    ScheduledAppointment {
        player_id: a.player_id.clone(),
        name: a.name.clone(),
        alliance: a.alliance.clone(),
        slot: a.slot,
        priority_score: a.priority_score,
    }
}

/// Adds a new day's schedule to an earlier one: earlier appointments
/// stay, new ones fill the slots that were empty, and the unassigned
/// list is the new one's.
pub fn merge_day(existing: Option<&DaySchedule>, new: DaySchedule) -> (merged: DaySchedule)
    ensures
        merged@.appointments == merged_appointments(
            optional_appointments(existing),
            new@.appointments,
        ),
        merged@.unassigned == new@.unassigned,
{
    let ghost earlier = optional_appointments(existing);
    let ghost fresh = new@.appointments;
    let DaySchedule { appointments, unassigned } = new;
    let mut incoming = appointments;
    let mut merged: HashMap<u8, ScheduledAppointment> = HashMap::new();
    let mut s: u16 = 0;
    while s < 256
        invariant
            s <= 256,
            earlier == optional_appointments(existing),
            forall|t: u8| t >= s ==> (incoming@.contains_key(t) <==> fresh.contains_key(t)),
            forall|t: u8| t >= s && incoming@.contains_key(t) ==> incoming@[t]@ == fresh[t],
            forall|t: u8|
                merged@.contains_key(t) <==> t < s && (earlier.contains_key(t)
                    || fresh.contains_key(t)),
            forall|t: u8|
                merged@.contains_key(t) ==> merged@[t]@ == merged_appointments(earlier, fresh)[t],
        decreases 256 - s,
    {
        let slot = s as u8;
        let kept: Option<ScheduledAppointment> = match existing {
            Some(day) => match day.appointments.get(&slot) {
                Some(appt) => Some(copy_appointment(appt)),
                None => None,
            },
            None => None,
        };
        match kept {
            Some(appt) => {
                merged.insert(slot, appt);
            },
            None => {
                match incoming.remove(&slot) {
                    Some(appt) => {
                        merged.insert(slot, appt);
                    },
                    None => {},
                }
            },
        }
        s += 1;
    }
    assert(appointments_view(merged@) =~= merged_appointments(earlier, fresh));
    DaySchedule { appointments: merged, unassigned }
}

} // verus!
