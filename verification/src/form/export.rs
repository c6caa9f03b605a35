//! A stored submission as a row of the sign-up table.

use vstd::prelude::*;
use vstd::string::StringExecFns;
use crate::schedule::slot_utils::{
    calculate_time_slots, optional_text, table_end, table_start, table_view, time_table,
};
use crate::schedule::types::strings_view;
use crate::text::{decimal, push_decimal};
use super::submission::FormSubmission;

verus! {

/// The time of the first row of `table`, from row `i` on, that belongs
/// to `slot`.
pub open spec fn time_of_slot(table: Seq<(u8, Seq<char>)>, slot: u8, i: int) -> Option<Seq<char>>
    decreases table.len() - i,
{
    if i < 0 || i >= table.len() {
        None
    } else if table[i].0 == slot {
        Some(table[i].1)
    } else {
        time_of_slot(table, slot, i + 1)
    }
}

/// The times of the slots of `slots` that `table` knows, in the same
/// order.
pub open spec fn slot_times(slots: Seq<u8>, table: Seq<(u8, Seq<char>)>) -> Seq<Seq<char>>
    decreases slots.len(),
{
    if slots.len() == 0 {
        Seq::empty()
    } else {
        let init = slot_times(slots.drop_last(), table);
        match time_of_slot(table, slots.last(), 0) {
            Some(time) => init.push(time),
            None => init,
        }
    }
}

/// The texts of `parts` in a row, with `sep` between neighbours.
pub open spec fn joined(parts: Seq<Seq<char>>, sep: Seq<char>) -> Seq<char>
    decreases parts.len(),
{
    if parts.len() == 0 {
        Seq::empty()
    } else if parts.len() == 1 {
        parts[0]
    } else {
        joined(parts.drop_last(), sep) + sep + parts.last()
    }
}

/// The answer to a yes-or-no question.
pub open spec fn yes_no(answer: bool) -> Seq<char> {
    if answer {
        "Yes"@
    } else {
        "No"@
    }
}

/// A number as an answer; empty where there is none.
pub open spec fn optional_number(n: Option<u32>) -> Seq<char> {
    match n {
        Some(v) => decimal(v as nat),
        None => Seq::empty(),
    }
}

/// A text as an answer; empty where there is none.
pub open spec fn optional_answer(text: Option<String>) -> Seq<char> {
    match text {
        Some(t) => t@,
        None => Seq::empty(),
    }
}

/// The times that a submission lists for a day, separated by a comma
/// and a blank.
pub open spec fn times_answer(slots: Seq<u8>, table: Seq<(u8, Seq<char>)>) -> Seq<char> {
    joined(slot_times(slots, table), ", "@)
}

/// The nineteen fields of the row for a submission, given the time
/// tables of the three days.
pub open spec fn submission_fields(
    s: &FormSubmission,
    construction: Seq<(u8, Seq<char>)>,
    research: Seq<(u8, Seq<char>)>,
    troops: Seq<(u8, Seq<char>)>,
) -> Seq<Seq<char>> {
    seq![
        s.timestamp@,
        s.alliance@,
        optional_answer(s.custom_alliance),
        s.character_name@,
        s.player_id@,
        s.submission_type@,
        yes_no(s.wants_construction),
        optional_number(s.construction_speedups),
        optional_number(s.construction_truegold),
        times_answer(s.construction_time_slots@, construction),
        yes_no(s.wants_research),
        optional_number(s.research_speedups),
        optional_number(s.research_truegold_dust),
        times_answer(s.research_time_slots@, research),
        yes_no(s.wants_troops),
        optional_number(s.troops_speedups),
        times_answer(s.troops_time_slots@, troops),
        optional_answer(s.additional_notes),
        optional_answer(s.suggestions),
    ]
}

/// The time table that a start and an optional end configure.
pub open spec fn configured_table(times: (&str, Option<&str>)) -> Seq<(u8, Seq<char>)> {
    time_table(table_start(times.0@), table_end(table_start(times.0@), optional_text(times.1)))
}

/// Writes the times that a submission lists for a day.
fn times_text(slots: &Vec<u8>, table: &Vec<(u8, String)>) -> (text: String)
    ensures
        text@ == times_answer(slots@, table_view(table@)),
{
    let ghost rows = table_view(table@);
    let mut text = String::new();
    let mut count: usize = 0;
    let ghost mut found: Seq<Seq<char>> = Seq::empty();
    let mut i: usize = 0;
    assert(slots@.take(0) =~= Seq::<u8>::empty());
    while i < slots.len()
        invariant
            i <= slots.len(),
            rows == table_view(table@),
            found == slot_times(slots@.take(i as int), rows),
            (count == 0) == (found.len() == 0),
            text@ == joined(found, ", "@),
        decreases slots.len() - i,
    {
        let slot = slots[i];
        proof {
            assert(slots@.take(i + 1).drop_last() =~= slots@.take(i as int));
            assert(slots@.take(i + 1).last() == slot);
        }
        let mut k: usize = 0;
        while k < table.len()
            invariant
                k <= table.len(),
                rows == table_view(table@),
                time_of_slot(rows, slot, 0) == time_of_slot(rows, slot, k as int),
            ensures
                k <= table.len(),
                k < table.len() ==> table@[k as int].0 == slot,
            decreases table.len() - k,
        {
            if table[k].0 == slot {
                break ;
            }
            k += 1;
        }
        if k < table.len() {
            let ghost before = text@;
            let ghost time = table@[k as int].1@;
            assert(time_of_slot(rows, slot, 0) == Some(time));
            if count > 0 {
                text.append(", ");
            }
            text.append(table[k].1.as_str());
            proof {
                let more = found.push(time);
                assert(more.drop_last() =~= found);
                assert(more.last() == time);
                if found.len() == 0 {
                    assert(before =~= Seq::<char>::empty());
                    assert(text@ =~= time);
                    assert(more[0] == time);
                } else {
                    assert(text@ =~= joined(found, ", "@) + ", "@ + time);
                }
                found = more;
            }
            if count == 0 {
                count = 1;
            }
        }
        i += 1;
    }
    assert(slots@.take(slots@.len() as int) =~= slots@);
    text
}

/// Writes a yes-or-no answer.
fn yes_no_text(answer: bool) -> (text: String)
    ensures
        text@ == yes_no(answer),
{
    if answer {
        String::from_str("Yes")
    } else {
        String::from_str("No")
    }
}

/// Writes a number as an answer; nothing where there is none.
fn number_text(n: Option<u32>) -> (text: String)
    ensures
        text@ == optional_number(n),
{
    let mut text = String::new();
    match n {
        Some(v) => {
            let ghost before = text@;
            push_decimal(&mut text, v);
            assert(text@ =~= decimal(v as nat));
        },
        None => {},
    }
    text
}

/// Writes a text as an answer; nothing where there is none.
fn answer_text(text: &Option<String>) -> (r: String)
    ensures
        r@ == optional_answer(*text),
{
    match text {
        Some(t) => t.clone(),
        None => String::new(),
    }
}

/// Builds the row of the sign-up table for a submission.  The slots it
/// lists are written as the times that the day's configured time table
/// gives them; slots that the table does not have are left out.
pub fn submission_record(
    submission: &FormSubmission,
    construction_times: (&str, Option<&str>),
    research_times: (&str, Option<&str>),
    troops_times: (&str, Option<&str>),
) -> (fields: Vec<String>)
    ensures
        strings_view(fields@) == submission_fields(
            submission,
            configured_table(construction_times),
            configured_table(research_times),
            configured_table(troops_times),
        ),
{
    let construction = calculate_time_slots(construction_times.0, construction_times.1);
    let research = calculate_time_slots(research_times.0, research_times.1);
    let troops = calculate_time_slots(troops_times.0, troops_times.1);
    let mut fields: Vec<String> = Vec::new();
    fields.push(submission.timestamp.clone());
    fields.push(submission.alliance.clone());
    fields.push(answer_text(&submission.custom_alliance));
    fields.push(submission.character_name.clone());
    fields.push(submission.player_id.clone());
    fields.push(submission.submission_type.clone());
    fields.push(yes_no_text(submission.wants_construction));
    fields.push(number_text(submission.construction_speedups));
    fields.push(number_text(submission.construction_truegold));
    fields.push(times_text(&submission.construction_time_slots, &construction));
    fields.push(yes_no_text(submission.wants_research));
    fields.push(number_text(submission.research_speedups));
    fields.push(number_text(submission.research_truegold_dust));
    fields.push(times_text(&submission.research_time_slots, &research));
    fields.push(yes_no_text(submission.wants_troops));
    fields.push(number_text(submission.troops_speedups));
    fields.push(times_text(&submission.troops_time_slots, &troops));
    fields.push(answer_text(&submission.additional_notes));
    fields.push(answer_text(&submission.suggestions));
    assert(strings_view(fields@) =~= submission_fields(
        submission,
        configured_table(construction_times),
        configured_table(research_times),
        configured_table(troops_times),
    ));
    fields
}

} // verus!
