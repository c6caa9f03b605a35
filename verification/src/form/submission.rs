//! A sign-up form submission and the rules it has to meet.

use vstd::prelude::*;
use vstd::string::StringExecFns;
use crate::text::{
    all_digits, chars_of, decimal, is_decimal_digit, is_digit, push_decimal, same_text, trim_bounds,
    trimmed,
};

verus! {

/// A submission as stored: the request and the time it came in.
#[derive(Debug, Clone)]
pub struct FormSubmission {
    pub timestamp: String,
    pub alliance: String,
    pub custom_alliance: Option<String>,
    pub character_name: String,
    pub player_id: String,
    /// Either "New submission" or "Re-Submission".
    pub submission_type: String,
    pub wants_construction: bool,
    pub construction_speedups: Option<u32>,
    pub construction_truegold: Option<u32>,
    pub construction_time_slots: Vec<u8>,
    pub wants_research: bool,
    pub research_speedups: Option<u32>,
    pub research_truegold_dust: Option<u32>,
    pub research_time_slots: Vec<u8>,
    pub wants_troops: bool,
    pub troops_speedups: Option<u32>,
    pub troops_time_slots: Vec<u8>,
    pub additional_notes: Option<String>,
    pub suggestions: Option<String>,
}

/// A submission as the form sends it.
#[derive(Debug, Clone)]
pub struct FormSubmissionRequest {
    pub alliance: String,
    pub custom_alliance: Option<String>,
    pub character_name: String,
    pub player_id: String,
    pub submission_type: String,
    pub wants_construction: bool,
    pub construction_speedups: Option<u32>,
    pub construction_truegold: Option<u32>,
    pub construction_time_slots: Vec<u8>,
    pub wants_research: bool,
    pub research_speedups: Option<u32>,
    pub research_truegold_dust: Option<u32>,
    pub research_time_slots: Vec<u8>,
    pub wants_troops: bool,
    pub troops_speedups: Option<u32>,
    pub troops_time_slots: Vec<u8>,
    pub additional_notes: Option<String>,
    pub suggestions: Option<String>,
}

/// The fewest time slots a requested day must list.
pub const MIN_TIME_SLOTS: usize = 5;

/// The highest slot a submission may list.
pub const MAX_FORM_SLOT: u8 = 49;

/// Whether a text is empty once the white space around it is gone.
pub open spec fn is_blank(s: Seq<char>) -> bool {
    trimmed(s).len() == 0
}

/// Whether a slot lies in the form's range.
pub open spec fn slot_in_range(slot: u8) -> bool {
    1 <= slot <= MAX_FORM_SLOT
}

/// The first slot of `slots`, from position `i` on, that lies outside the
/// form's range.
pub open spec fn first_bad_slot(slots: Seq<u8>, i: int) -> Option<u8>
    decreases slots.len() - i,
{
    if i < 0 || i >= slots.len() {
        None
    } else if !slot_in_range(slots[i]) {
        Some(slots[i])
    } else {
        first_bad_slot(slots, i + 1)
    }
}

/// What is wrong with the time slots of a requested day, if anything:
/// fewer than five, or a slot out of range.  `day_title` and `day_word`
/// name the day in the two messages.
pub open spec fn slots_fault(slots: Seq<u8>, day_title: Seq<char>, day_word: Seq<char>) -> Option<
    Seq<char>,
> {
    if slots.len() < MIN_TIME_SLOTS {
        Some(day_title + " day requires at least 5 time slots"@)
    } else {
        match first_bad_slot(slots, 0) {
            Some(slot) => Some("Invalid "@ + day_word + " time slot: "@ + decimal(slot as nat)),
            None => None,
        }
    }
}

/// Whether the custom alliance name is missing or blank.
pub open spec fn custom_alliance_blank(custom: Option<String>) -> bool {
    match custom {
        Some(text) => is_blank(text@),
        None => true,
    }
}

/// The first fault of a submission, as the message to show, or `None`
/// for a submission that meets every rule.
///
/// The rules, in order: a character name; a player id of digits only; a
/// known submission type; an alliance, with a custom name where "Non of
/// the above" is chosen; for each requested day at least five slots, all
/// in range; and at least one requested day.
pub open spec fn submission_fault(req: &FormSubmissionRequest) -> Option<Seq<char>> {
    if is_blank(req.character_name@) {
        Some("Character name is required"@)
    } else if is_blank(req.player_id@) {
        Some("Player ID is required"@)
    } else if !all_digits(trimmed(req.player_id@)) {
        Some("Player ID must contain only digits"@)
    } else if req.submission_type@ != "New submission"@ && req.submission_type@
        != "Re-Submission"@ {
        Some("Invalid submission type"@)
    } else if is_blank(req.alliance@) {
        Some("Alliance selection is required"@)
    } else if req.alliance@ == "Non of the above"@ && custom_alliance_blank(req.custom_alliance) {
        Some("Custom alliance name is required when 'Non of the above' is selected"@)
    } else if req.wants_construction && slots_fault(
        req.construction_time_slots@,
        "Construction"@,
        "construction"@,
    ).is_some() {
        slots_fault(req.construction_time_slots@, "Construction"@, "construction"@)
    } else if req.wants_research && slots_fault(
        req.research_time_slots@,
        "Research"@,
        "research"@,
    ).is_some() {
        slots_fault(req.research_time_slots@, "Research"@, "research"@)
    } else if req.wants_troops && slots_fault(
        req.troops_time_slots@,
        "Troops Training"@,
        "troops"@,
    ).is_some() {
        slots_fault(req.troops_time_slots@, "Troops Training"@, "troops"@)
    } else if !req.wants_construction && !req.wants_research && !req.wants_troops {
        Some("At least one day type (Construction, Research, or Troops) must be selected"@)
    } else {
        None
    }
}

/// Tells whether a text is empty once the white space around it is
/// gone.
pub fn text_is_blank(s: &str) -> (r: bool)
    ensures
        r == is_blank(s@),
{
    let chars = chars_of(s);
    assert(chars@.subrange(0, chars@.len() as int) =~= chars@);
    let (a, b) = trim_bounds(chars.as_slice(), 0, chars.len());
    a == b
}

/// Tells whether a text, without the white space around it, holds
/// decimal digits only.
pub fn text_is_digits(s: &str) -> (r: bool)
    ensures
        r == all_digits(trimmed(s@)),
{
    let chars = chars_of(s);
    assert(chars@.subrange(0, chars@.len() as int) =~= chars@);
    let (a, b) = trim_bounds(chars.as_slice(), 0, chars.len());
    let ghost core = chars@.subrange(a as int, b as int);
    let mut i: usize = a;
    while i < b
        invariant
            a <= i <= b <= chars@.len(),
            core == chars@.subrange(a as int, b as int),
            core == trimmed(s@),
            forall|k: int| 0 <= k < i - a ==> is_digit(#[trigger] core[k]),
        decreases b - i,
    {
        if !is_decimal_digit(chars[i]) {
            assert(core[i - a] == chars@[i as int]);
            return false;
        }
        i += 1;
    }
    true
}

/// Checks the time slots of a requested day.
fn check_slots(slots: &Vec<u8>, day_title: &str, day_word: &str) -> (r: Result<(), String>)
    ensures
        match r {
            Ok(_) => slots_fault(slots@, day_title@, day_word@).is_none(),
            Err(message) => slots_fault(slots@, day_title@, day_word@) == Some(message@),
        },
{
    if slots.len() < MIN_TIME_SLOTS {
        let mut message = String::from_str(day_title);
        message.append(" day requires at least 5 time slots");
        return Err(message);
    }
    let mut i: usize = 0;
    while i < slots.len()
        invariant
            i <= slots.len(),
            slots@.len() >= MIN_TIME_SLOTS,
            first_bad_slot(slots@, 0) == first_bad_slot(slots@, i as int),
        decreases slots.len() - i,
    {
        let slot = slots[i];
        if slot < 1 || slot > MAX_FORM_SLOT {
            let mut message = String::from_str("Invalid ");
            message.append(day_word);
            message.append(" time slot: ");
            push_decimal(&mut message, slot as u32);
            return Err(message);
        }
        i += 1;
    }
    Ok(())
}

/// Validates a form submission.  Returns the message of the first rule
/// it breaks.
pub fn validate_submission(req: &FormSubmissionRequest) -> (r: Result<(), String>)
    ensures
        match r {
            Ok(_) => submission_fault(req).is_none(),
            Err(message) => submission_fault(req) == Some(message@),
        },
{
    if text_is_blank(req.character_name.as_str()) {
        return Err(String::from_str("Character name is required"));
    }
    if text_is_blank(req.player_id.as_str()) {
        return Err(String::from_str("Player ID is required"));
    }
    if !text_is_digits(req.player_id.as_str()) {
        return Err(String::from_str("Player ID must contain only digits"));
    }
    if !same_text(req.submission_type.as_str(), "New submission") && !same_text(
        req.submission_type.as_str(),
        "Re-Submission",
    ) {
        return Err(String::from_str("Invalid submission type"));
    }
    if text_is_blank(req.alliance.as_str()) {
        return Err(String::from_str("Alliance selection is required"));
    }
    if same_text(req.alliance.as_str(), "Non of the above") {
        let blank = match &req.custom_alliance {
            Some(text) => text_is_blank(text.as_str()),
            None => true,
        };
        if blank {
            return Err(
                String::from_str(
                    "Custom alliance name is required when 'Non of the above' is selected",
                ),
            );
        }
    }
    if req.wants_construction {
        match check_slots(&req.construction_time_slots, "Construction", "construction") {
            Err(message) => {
                return Err(message);
            },
            Ok(_) => {},
        }
    }
    if req.wants_research {
        match check_slots(&req.research_time_slots, "Research", "research") {
            Err(message) => {
                return Err(message);
            },
            Ok(_) => {},
        }
    }
    if req.wants_troops {
        match check_slots(&req.troops_time_slots, "Troops Training", "troops") {
            Err(message) => {
                return Err(message);
            },
            Ok(_) => {},
        }
    }
    if !req.wants_construction && !req.wants_research && !req.wants_troops {
        return Err(
            String::from_str(
                "At least one day type (Construction, Research, or Troops) must be selected",
            ),
        );
    }
    Ok(())
}

} // verus!
