//! Text for showing a schedule: player labels and the lines of a
//! schedule file.

use vstd::prelude::*;
use vstd::string::StringExecFns;
use crate::schedule::slot_utils::{fixed_slot_text, slot_to_time};
use crate::schedule::types::{strings_view, AppointmentView, DaySchedule};

verus! {

/// The number of slots of the fixed table, which a schedule file lists.
pub const FIXED_TABLE_SLOTS: u8 = 49;

/// A player's label: the name, behind the alliance tag in square
/// brackets where there is one.
pub open spec fn player_label(alliance: Seq<char>, name: Seq<char>) -> Seq<char> {
    if alliance.len() == 0 {
        name
    } else {
        seq!['['] + alliance + seq![']', ' '] + name
    }
}

/// The text that marks a slot without an appointment.
pub open spec fn empty_mark() -> Seq<char> {
    seq!['[', 'E', 'M', 'P', 'T', 'Y', ']']
}

/// The heading of a schedule file: the day's name between asterisks.
pub open spec fn file_heading(day_name: Seq<char>) -> Seq<char> {
    seq!['*', '*', ' '] + day_name + seq![' ', '*', '*']
}

/// The line of a schedule file for `slot`: its time, and the label of
/// whoever sits there.
pub open spec fn file_line(seats: Map<u8, AppointmentView>, slot: u8) -> Seq<char> {
    fixed_slot_text(slot) + seq![' '] + if seats.contains_key(slot) {
        player_label(seats[slot].alliance, seats[slot].name)
    } else {
        empty_mark()
    }
}

/// The lines of a schedule file: the heading, and one line for each
/// slot of the fixed table.
pub open spec fn file_lines(day_name: Seq<char>, seats: Map<u8, AppointmentView>) -> Seq<Seq<char>> {
    seq![file_heading(day_name)] + Seq::new(
        FIXED_TABLE_SLOTS as nat,
        |i: int| file_line(seats, (i + 1) as u8),
    )
}

/// Formats a player's name with the alliance tag.
pub fn format_player_name(alliance: &str, name: &str) -> (text: String)
    ensures
        text@ == player_label(alliance@, name@),
{
    if alliance.is_empty() {
        String::from_str(name)
    } else {
        proof {
            reveal_strlit("[");
            reveal_strlit("] ");
        }
        let mut text = String::from_str("[");
        text.append(alliance);
        text.append("] ");
        text.append(name);
        assert(text@ =~= player_label(alliance@, name@));
        text
    }
}

/// Builds the lines of a day's schedule file.
pub fn schedule_file_lines(day_name: &str, schedule: &DaySchedule) -> (lines: Vec<String>)
    ensures
        strings_view(lines@) == file_lines(day_name@, schedule@.appointments),
{
    let ghost seats = schedule@.appointments;
    let ghost target = file_lines(day_name@, seats);
    proof {
        reveal_strlit("** ");
        reveal_strlit(" **");
    }
    let mut heading = String::from_str("** ");
    heading.append(day_name);
    heading.append(" **");
    assert(heading@ =~= file_heading(day_name@));
    let mut lines: Vec<String> = Vec::new();
    lines.push(heading);
    assert(strings_view(lines@) =~= target.take(1));
    let mut slot: u8 = 1;
    while slot <= FIXED_TABLE_SLOTS
        invariant
            1 <= slot <= FIXED_TABLE_SLOTS + 1,
            seats == schedule@.appointments,
            target == file_lines(day_name@, seats),
            lines@.len() == slot,
            strings_view(lines@) =~= target.take(slot as int),
        decreases FIXED_TABLE_SLOTS + 1 - slot,
    {
        let ghost before = strings_view(lines@);
        proof {
            reveal_strlit(" ");
            reveal_strlit("[EMPTY]");
        }
        let mut line = slot_to_time(slot);
        line.append(" ");
        match schedule.appointments.get(&slot) {
            Some(appt) => {
                let label = format_player_name(appt.alliance.as_str(), appt.name.as_str());
                line.append(label.as_str());
            },
            None => {
                line.append("[EMPTY]");
            },
        }
        assert(line@ =~= file_line(seats, slot));
        lines.push(line);
        proof {
            assert(target[slot as int] == file_line(seats, slot));
            assert forall|k: int| 0 <= k < slot + 1 implies strings_view(lines@)[k] == target.take(
                slot + 1,
            )[k] by {
                if k < slot {
                    assert(strings_view(lines@)[k] == before[k]);
                }
            }
        }
        slot += 1;
    }
    assert(target.take(target.len() as int) =~= target);
    lines
}

} // verus!
