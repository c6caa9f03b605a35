use std::collections::HashMap;

use prep_appointments::display::{format_player_name, schedule_file_lines};
use prep_appointments::form::code::{code_char, form_code_from};
use prep_appointments::form::{
    generate_form_code, submission_record, validate_submission, FormSubmission,
    FormSubmissionRequest,
};
use prep_appointments::parser::AppointmentEntry;
use prep_appointments::records::{
    construction_score_of, entry_from_record, find_columns, merge_entry, research_score_of,
    RowOutcome,
};
use prep_appointments::schedule::append::{
    derive_scheduled_player_ids, get_scheduled_player_ids, merge_day, occupied_slots,
    schedule_key, unscheduled_entries, ScheduleData,
};
use prep_appointments::schedule::{DaySchedule, ScheduledAppointment};

fn request() -> FormSubmissionRequest {
    FormSubmissionRequest {
        alliance: "ABC".to_string(),
        custom_alliance: None,
        character_name: "Jobie".to_string(),
        player_id: "37924862".to_string(),
        submission_type: "New submission".to_string(),
        wants_construction: true,
        construction_speedups: Some(10),
        construction_truegold: Some(2),
        construction_time_slots: vec![1, 2, 3, 4, 5],
        wants_research: false,
        research_speedups: None,
        research_truegold_dust: None,
        research_time_slots: vec![],
        wants_troops: false,
        troops_speedups: None,
        troops_time_slots: vec![],
        additional_notes: None,
        suggestions: None,
    }
}

fn fault(req: &FormSubmissionRequest) -> String {
    validate_submission(req).unwrap_err()
}

#[test]
fn sound_submission_is_accepted() {
    assert_eq!(validate_submission(&request()), Ok(()));
    let mut r = request();
    r.submission_type = "Re-Submission".to_string();
    r.player_id = "  123  ".to_string();
    assert_eq!(validate_submission(&r), Ok(()));
}

#[test]
fn submission_faults_in_order() {
    let mut r = request();
    r.character_name = "   ".to_string();
    r.player_id = "".to_string();
    assert_eq!(fault(&r), "Character name is required");
    r.character_name = "x".to_string();
    assert_eq!(fault(&r), "Player ID is required");
    r.player_id = "12a".to_string();
    r.submission_type = "other".to_string();
    assert_eq!(fault(&r), "Player ID must contain only digits");
    r.player_id = "12".to_string();
    assert_eq!(fault(&r), "Invalid submission type");
    r.submission_type = "New submission".to_string();
    r.alliance = " ".to_string();
    assert_eq!(fault(&r), "Alliance selection is required");
    r.alliance = "Non of the above".to_string();
    assert_eq!(
        fault(&r),
        "Custom alliance name is required when 'Non of the above' is selected"
    );
    r.custom_alliance = Some("  ".to_string());
    assert_eq!(
        fault(&r),
        "Custom alliance name is required when 'Non of the above' is selected"
    );
    r.custom_alliance = Some("XYZ".to_string());
    assert_eq!(validate_submission(&r), Ok(()));
}

#[test]
fn submission_day_faults() {
    let mut r = request();
    r.construction_time_slots = vec![1, 2, 3, 4];
    assert_eq!(fault(&r), "Construction day requires at least 5 time slots");
    r.construction_time_slots = vec![1, 2, 3, 4, 50, 0];
    assert_eq!(fault(&r), "Invalid construction time slot: 50");
    r.construction_time_slots = vec![0, 2, 3, 4, 5];
    assert_eq!(fault(&r), "Invalid construction time slot: 0");
    r.construction_time_slots = vec![1, 2, 3, 4, 49];
    r.wants_research = true;
    assert_eq!(fault(&r), "Research day requires at least 5 time slots");
    r.research_time_slots = vec![1, 2, 3, 4, 200];
    assert_eq!(fault(&r), "Invalid research time slot: 200");
    r.research_time_slots = vec![1, 2, 3, 4, 5];
    r.wants_troops = true;
    assert_eq!(fault(&r), "Troops Training day requires at least 5 time slots");
    r.troops_time_slots = vec![1, 2, 3, 4, 5, 77];
    assert_eq!(fault(&r), "Invalid troops time slot: 77");
    r.troops_time_slots = vec![1, 2, 3, 4, 5];
    assert_eq!(validate_submission(&r), Ok(()));
    r.wants_construction = false;
    r.wants_research = false;
    r.wants_troops = false;
    assert_eq!(
        fault(&r),
        "At least one day type (Construction, Research, or Troops) must be selected"
    );
}

#[test]
fn player_labels() {
    assert_eq!(format_player_name("", "Solo"), "Solo");
    assert_eq!(format_player_name("ABC", "Jobie"), "[ABC] Jobie");
}

#[test]
fn schedule_file_has_a_heading_and_forty_nine_lines() {
    let mut appointments = HashMap::new();
    appointments.insert(
        2,
        ScheduledAppointment {
            player_id: "7".to_string(),
            name: "Jobie".to_string(),
            alliance: "ABC".to_string(),
            slot: 2,
            priority_score: 1,
        },
    );
    appointments.insert(
        49,
        ScheduledAppointment {
            player_id: "8".to_string(),
            name: "Solo".to_string(),
            alliance: "".to_string(),
            slot: 49,
            priority_score: 1,
        },
    );
    let schedule = DaySchedule { appointments, unassigned: vec![] };
    let lines = schedule_file_lines("Research Day", &schedule);
    assert_eq!(lines.len(), 50);
    assert_eq!(lines[0], "** Research Day **");
    assert_eq!(lines[1], "00:00 [EMPTY]");
    assert_eq!(lines[2], "00:15 [ABC] Jobie");
    assert_eq!(lines[49], "23:45 Solo");
}

#[test]
fn form_code_is_twelve_letters_or_digits() {
    for _ in 0..20 {
        let code = generate_form_code();
        assert_eq!(code.chars().count(), 12);
        assert!(code.chars().all(|c| c.is_ascii_alphanumeric()));
    }
}

#[test]
fn form_code_spells_its_positions() {
    assert_eq!(code_char(0), 'A');
    assert_eq!(code_char(25), 'Z');
    assert_eq!(code_char(26), 'a');
    assert_eq!(code_char(51), 'z');
    assert_eq!(code_char(52), '0');
    assert_eq!(code_char(61), '9');
    assert_eq!(form_code_from(&[0, 26, 52, 61, 25, 51]), "Aa09Zz");
    assert_eq!(form_code_from(&[]), "");
}

#[test]
fn scores() {
    assert_eq!(construction_score_of(2500, 2100), Some(2500 * 2000 + 2100 * 30));
    assert_eq!(construction_score_of(0, 0), Some(0));
    assert_eq!(research_score_of(3, 7), Some(3210));
    assert_eq!(construction_score_of(2_147_483, 20), Some(4_294_966_600));
    assert_eq!(construction_score_of(2_147_484, 0), None);
    assert_eq!(research_score_of(4_294_967, 10), None);
    assert_eq!(research_score_of(4_294_967, 9), Some(4_294_967_270));
}

fn headings() -> Vec<String> {
    [
        "timestamp",
        "What alliance do you belong to? ",
        "If chosen \"Non of the above\" please type it here",
        "What is your character name?",
        "What is your player ID?",
        "Is this form a...",
        "Do you want a Construction day appointment?",
        "How many hours of speedups do you plan to use on Construction day?",
        "How much truegold do you plan too spend?",
        "What times are you available for your Construction day appointment?",
        "Do you want a Research day appointment?",
        "How many hours of speedups do you plan to use on Research day?",
        "How much truegold dust do you plan to spend?",
        "What times are you available for your Research day appointment?",
        "Do you want a Troops Training day appointment?",
        "How many hours of speedups do you plan to use on Troops Training day?",
        "What times are you available for your Troops Training day appointment?",
        "notes",
        "suggestions",
    ]
    .iter()
    .map(|s| s.to_string())
    .collect()
}

#[test]
fn columns_are_found_by_their_headings() {
    let layout = find_columns(&headings());
    assert_eq!(layout.alliance, 1);
    assert_eq!(layout.custom_alliance, 2);
    assert_eq!(layout.name, 3);
    assert_eq!(layout.player_id, 4);
    assert_eq!(layout.construction_want, 6);
    assert_eq!(layout.construction_speedups, 7);
    assert_eq!(layout.construction_truegold, 8);
    assert_eq!(layout.construction_times, 9);
    assert_eq!(layout.research_want, 10);
    assert_eq!(layout.research_speedups, 11);
    assert_eq!(layout.research_truegold_dust, 12);
    assert_eq!(layout.research_times, 13);
    assert_eq!(layout.troops_want, 14);
    assert_eq!(layout.troops_speedups, 15);
    assert_eq!(layout.troops_times, 16);
}

#[test]
fn columns_fall_back_without_headings() {
    let layout = find_columns(&[]);
    assert_eq!(layout.alliance, 1);
    assert_eq!(layout.custom_alliance, 2);
    assert_eq!(layout.name, 3);
    assert_eq!(layout.player_id, 4);
    assert_eq!(layout.construction_want, 6);
    assert_eq!(layout.research_times, 13);
    assert_eq!(layout.troops_want, 13);
    assert_eq!(layout.troops_speedups, 14);
    assert_eq!(layout.troops_times, 15);
}

fn row(fields: &[&str]) -> Vec<String> {
    fields.iter().map(|s| s.to_string()).collect()
}

fn sample_row() -> Vec<String> {
    row(&[
        "01/01/2025",
        " Non of the above ",
        " XYZ ",
        " Jobie ",
        " 37924862 ",
        "Re-Submission",
        "Yes",
        "2100",
        "2500",
        "00:00, 01:15",
        "no",
        "",
        "x",
        "",
        "TRUE",
        " 12 ",
        "00:45 (late), 00:15",
        "",
        "",
    ])
}

fn entry_of(imported: RowOutcome) -> AppointmentEntry {
    match imported {
        RowOutcome::Entry(e) => e,
        _ => panic!("no entry"),
    }
}

#[test]
fn row_becomes_a_candidate_record() {
    let layout = find_columns(&headings());
    let e = entry_of(entry_from_record(&sample_row(), &layout, None, None, None));
    assert_eq!(e.alliance, "XYZ");
    assert_eq!(e.name, "Jobie");
    assert_eq!(e.player_id, "37924862");
    assert!(e.wants_construction);
    assert!(!e.wants_research);
    assert!(e.wants_troops);
    assert_eq!(e.construction_speedups, 2100);
    assert_eq!(e.construction_truegold, 2500);
    assert_eq!(e.construction_score, 5_063_000);
    assert_eq!(e.research_speedups, 0);
    assert_eq!(e.research_truegold_dust, 0);
    assert_eq!(e.research_score, 0);
    assert_eq!(e.troops_speedups, 12);
    assert_eq!(e.construction_available_slots, vec![1, 4]);
    assert_eq!(e.research_available_slots, Vec::<u8>::new());
    assert_eq!(e.troops_available_slots, vec![2, 3]);
}

#[test]
fn listed_alliance_is_kept_unless_it_points_to_the_custom_one() {
    let layout = find_columns(&headings());
    let mut r = sample_row();
    r[1] = "ABC".to_string();
    assert_eq!(entry_of(entry_from_record(&r, &layout, None, None, None)).alliance, "ABC");
    r[1] = "NON".to_string();
    assert_eq!(entry_of(entry_from_record(&r, &layout, None, None, None)).alliance, "XYZ");
    r[2] = "  ".to_string();
    assert_eq!(entry_of(entry_from_record(&r, &layout, None, None, None)).alliance, "NON");
}

#[test]
fn short_or_nameless_rows_are_skipped() {
    let layout = find_columns(&headings());
    let short = row(&["a"; 15]);
    assert!(matches!(entry_from_record(&short, &layout, None, None, None), RowOutcome::Skipped));
    let mut r = sample_row();
    r[3] = " ".to_string();
    assert!(matches!(entry_from_record(&r, &layout, None, None, None), RowOutcome::Skipped));
    let mut r = sample_row();
    r[4] = "".to_string();
    assert!(matches!(entry_from_record(&r, &layout, None, None, None), RowOutcome::Skipped));
}

#[test]
fn row_with_a_score_beyond_range_is_flagged() {
    let layout = find_columns(&headings());
    let mut r = sample_row();
    r[8] = "4000000".to_string();
    assert!(matches!(
        entry_from_record(&r, &layout, None, None, None),
        RowOutcome::ScoreTooLarge
    ));
}

#[test]
fn row_is_read_against_custom_tables() {
    let layout = find_columns(&headings());
    let t = vec![(1u8, "00:20".to_string()), (2, "01:15".to_string())];
    let e = entry_of(entry_from_record(&sample_row(), &layout, Some(&t), None, None));
    assert_eq!(e.construction_available_slots, vec![2]);
    assert_eq!(e.troops_available_slots, vec![2, 3]);
}

#[test]
fn later_record_replaces_the_earlier_one() {
    let layout = find_columns(&headings());
    let first = entry_of(entry_from_record(&sample_row(), &layout, None, None, None));
    let mut other_row = sample_row();
    other_row[4] = "5".to_string();
    let other = entry_of(entry_from_record(&other_row, &layout, None, None, None));
    let mut again_row = sample_row();
    again_row[3] = "Renamed".to_string();
    let again = entry_of(entry_from_record(&again_row, &layout, None, None, None));
    let mut list = Vec::new();
    merge_entry(&mut list, first);
    merge_entry(&mut list, other);
    merge_entry(&mut list, again);
    assert_eq!(list.len(), 2);
    assert_eq!(list[0].player_id, "37924862");
    assert_eq!(list[0].name, "Renamed");
    assert_eq!(list[1].player_id, "5");
}

fn submission() -> FormSubmission {
    FormSubmission {
        timestamp: "t".to_string(),
        alliance: "ABC".to_string(),
        custom_alliance: None,
        character_name: "Jobie".to_string(),
        player_id: "7".to_string(),
        submission_type: "New submission".to_string(),
        wants_construction: true,
        construction_speedups: Some(2100),
        construction_truegold: None,
        construction_time_slots: vec![3, 1, 60],
        wants_research: false,
        research_speedups: Some(0),
        research_truegold_dust: None,
        research_time_slots: vec![],
        wants_troops: true,
        troops_speedups: None,
        troops_time_slots: vec![2],
        additional_notes: Some("note".to_string()),
        suggestions: None,
    }
}

#[test]
fn submission_becomes_a_row() {
    let fields = submission_record(
        &submission(),
        ("00:00", None),
        ("00:00", None),
        ("10:00", Some("12:00")),
    );
    let expected = vec![
        "t", "ABC", "", "Jobie", "7", "New submission", "Yes", "2100", "", "00:45, 00:00", "No",
        "0", "", "", "Yes", "", "10:15", "note", "",
    ];
    assert_eq!(fields, expected);
}

fn day(seats: &[(u8, &str)]) -> DaySchedule {
    let mut appointments = HashMap::new();
    for (slot, id) in seats {
        appointments.insert(
            *slot,
            ScheduledAppointment {
                player_id: id.to_string(),
                name: "n".to_string(),
                alliance: "a".to_string(),
                slot: *slot,
                priority_score: 0,
            },
        );
    }
    DaySchedule { appointments, unassigned: vec![] }
}

#[test]
fn schedule_key_joins_account_and_server() {
    assert_eq!(schedule_key("lion", 235), "lion:235");
    assert_eq!(schedule_key("", 0), ":0");
}

#[test]
fn occupied_slots_are_the_filled_ones() {
    let slots = occupied_slots(&day(&[(3, "a"), (9, "b")]));
    assert_eq!(slots.len(), 2);
    assert!(slots.contains(&3) && slots.contains(&9));
    assert!(occupied_slots(&day(&[])).is_empty());
}

#[test]
fn scheduled_players_are_listed_once() {
    let mut data = ScheduleData {
        construction_schedule: Some(day(&[(9, "b"), (3, "a")])),
        research_schedule: None,
        troops_schedule: Some(day(&[(1, "c"), (2, "a")])),
        entries: None,
        scheduled_player_ids: None,
    };
    assert_eq!(derive_scheduled_player_ids(&data), vec!["a", "b", "c"]);
    assert_eq!(get_scheduled_player_ids(&data), vec!["a", "b", "c"]);
    data.scheduled_player_ids =
        Some(vec!["z".to_string(), "a".to_string(), "z".to_string()]);
    assert_eq!(get_scheduled_player_ids(&data), vec!["z", "a"]);
    assert_eq!(derive_scheduled_player_ids(&data), vec!["a", "b", "c"]);
}

#[test]
fn unscheduled_entries_are_kept_in_order() {
    let layout = find_columns(&headings());
    let mut list = Vec::new();
    for id in ["1", "2", "3"] {
        let mut r = sample_row();
        r[4] = id.to_string();
        merge_entry(&mut list, entry_of(entry_from_record(&r, &layout, None, None, None)));
    }
    let rest = unscheduled_entries(&list, &vec!["2".to_string()]);
    let ids: Vec<&str> = rest.iter().map(|e| e.player_id.as_str()).collect();
    assert_eq!(ids, vec!["1", "3"]);
}

#[test]
fn merge_keeps_earlier_appointments_and_fills_empty_slots() {
    let earlier = day(&[(1, "old1"), (2, "old2")]);
    let mut new = day(&[(2, "new2"), (3, "new3")]);
    new.unassigned = vec!["left".to_string()];
    let merged = merge_day(Some(&earlier), new);
    let mut seats: Vec<(u8, String)> =
        merged.appointments.iter().map(|(s, a)| (*s, a.player_id.clone())).collect();
    seats.sort();
    assert_eq!(
        seats,
        vec![(1, "old1".to_string()), (2, "old2".to_string()), (3, "new3".to_string())]
    );
    assert_eq!(merged.unassigned, vec!["left".to_string()]);
    let alone = merge_day(None, day(&[(9, "x")]));
    assert_eq!(alone.appointments.len(), 1);
    assert_eq!(alone.appointments[&9].player_id, "x");
}
