use prep_appointments::parser::{
    configured_time_slot, parse_bool, parse_number, parse_time_slots, time_string_to_slot_number,
    time_to_slot,
};
use prep_appointments::schedule::{
    calculate_time_slots, minutes_to_time_string, parse_time_to_minutes, slot_to_time,
};

#[test]
fn fixed_table_labels() {
    assert_eq!(slot_to_time(1), "00:00");
    assert_eq!(slot_to_time(2), "00:15");
    assert_eq!(slot_to_time(3), "00:45");
    assert_eq!(slot_to_time(4), "01:15");
    assert_eq!(slot_to_time(49), "23:45");
    assert_eq!(slot_to_time(50), "24:15");
    assert_eq!(slot_to_time(255), "126:45");
}

#[test]
fn minutes_are_written_as_time_of_day() {
    assert_eq!(minutes_to_time_string(0), "00:00");
    assert_eq!(minutes_to_time_string(75), "01:15");
    assert_eq!(minutes_to_time_string(1439), "23:59");
    assert_eq!(minutes_to_time_string(1440), "00:00");
    assert_eq!(minutes_to_time_string(1505), "01:05");
}

#[test]
fn time_of_day_is_read_as_minutes() {
    assert_eq!(parse_time_to_minutes("00:00"), Some(0));
    assert_eq!(parse_time_to_minutes("01:15"), Some(75));
    assert_eq!(parse_time_to_minutes("23:59"), Some(1439));
    assert_eq!(parse_time_to_minutes("7:5"), Some(425));
    assert_eq!(parse_time_to_minutes("+7:+5"), Some(425));
    assert_eq!(parse_time_to_minutes("0007:05"), Some(425));
}

#[test]
fn malformed_time_of_day_is_refused() {
    assert_eq!(parse_time_to_minutes(""), None);
    assert_eq!(parse_time_to_minutes("12"), None);
    assert_eq!(parse_time_to_minutes("12:"), None);
    assert_eq!(parse_time_to_minutes(":30"), None);
    assert_eq!(parse_time_to_minutes("12:30:00"), None);
    assert_eq!(parse_time_to_minutes("24:00"), None);
    assert_eq!(parse_time_to_minutes("12:60"), None);
    assert_eq!(parse_time_to_minutes(" 12:30"), None);
    assert_eq!(parse_time_to_minutes("12:30 "), None);
    assert_eq!(parse_time_to_minutes("-1:30"), None);
    assert_eq!(parse_time_to_minutes("1a:30"), None);
    assert_eq!(parse_time_to_minutes("+:30"), None);
    assert_eq!(parse_time_to_minutes("99999999999:30"), None);
}

fn table(start: &str, end: Option<&str>) -> Vec<(u8, String)> {
    calculate_time_slots(start, end)
}

#[test]
fn full_day_table_has_forty_nine_slots() {
    let t = table("00:00", None);
    assert_eq!(t.len(), 49);
    assert_eq!(t[0], (1, "00:00".to_string()));
    assert_eq!(t[1], (2, "00:15".to_string()));
    assert_eq!(t[2], (3, "00:45".to_string()));
    assert_eq!(t[48], (49, "23:45".to_string()));
    for (i, row) in t.iter().enumerate() {
        assert_eq!(row.0 as usize, i + 1);
        assert_eq!(row.1, slot_to_time(row.0));
    }
}

#[test]
fn table_from_a_later_start_wraps_past_midnight() {
    let t = table("00:20", None);
    assert_eq!(t.len(), 49);
    assert_eq!(t[0], (1, "00:20".to_string()));
    assert_eq!(t[1], (2, "00:35".to_string()));
    assert_eq!(t[2], (3, "01:05".to_string()));
    assert_eq!(t[48], (49, "00:05".to_string()));
}

#[test]
fn table_stops_before_the_end() {
    let t = table("10:00", Some("12:00"));
    let times: Vec<&str> = t.iter().map(|r| r.1.as_str()).collect();
    assert_eq!(times, vec!["10:00", "10:15", "10:45", "11:15", "11:45"]);
    let t = table("10:00", Some("11:45"));
    let times: Vec<&str> = t.iter().map(|r| r.1.as_str()).collect();
    assert_eq!(times, vec!["10:00", "10:15", "10:45", "11:15"]);
}

#[test]
fn table_with_an_early_end_has_one_slot() {
    assert_eq!(table("10:00", Some("10:15")), vec![(1, "10:00".to_string())]);
    assert_eq!(table("10:00", Some("10:00")), vec![(1, "10:00".to_string())]);
    assert_eq!(table("10:00", Some("10:16")).len(), 2);
}

#[test]
fn table_across_midnight_ends_between_end_and_start() {
    let t = table("23:00", Some("01:00"));
    let times: Vec<&str> = t.iter().map(|r| r.1.as_str()).collect();
    assert_eq!(times, vec!["23:00", "23:15", "23:45", "00:15", "00:45"]);
}

#[test]
fn table_that_misses_a_narrow_end_is_cut_at_two_hundred() {
    // The gap between end and start is ten minutes wide and the half-hour
    // steps never land in it.
    let t = table("23:00", Some("22:50"));
    assert_eq!(t.len(), 200);
    assert_eq!(t[199].0, 200);
}

#[test]
fn table_with_unreadable_times_falls_back() {
    assert_eq!(table("nonsense", None), table("00:00", None));
    assert_eq!(table("10:00", Some("nonsense")), table("10:00", None));
}

#[test]
fn time_text_names_a_slot_of_the_fixed_table() {
    assert_eq!(time_to_slot("00:00"), Some(1));
    assert_eq!(time_to_slot("00:15"), Some(2));
    assert_eq!(time_to_slot("00:45"), Some(3));
    assert_eq!(time_to_slot("01:15"), Some(4));
    assert_eq!(time_to_slot("01:30"), Some(4));
    assert_eq!(time_to_slot("23:45"), Some(49));
    assert_eq!(time_to_slot("24:15"), None);
    assert_eq!(time_to_slot("00:10"), None);
    assert_eq!(time_to_slot("00:30"), None);
    assert_eq!(time_to_slot("  01:45 (server reset) "), Some(5));
    assert_eq!(time_to_slot("(note) 01:45"), None);
    assert_eq!(time_to_slot("noon"), None);
    assert_eq!(time_to_slot("4000000000:00"), None);
}

#[test]
fn every_fixed_label_names_its_slot() {
    for slot in 1..=49u8 {
        assert_eq!(time_to_slot(&slot_to_time(slot)), Some(slot));
    }
}

#[test]
fn time_text_names_a_slot_of_a_custom_table() {
    let t = vec![(1u8, "00:20".to_string()), (2, " 00:35 ".to_string()), (7, "00:20".to_string())];
    assert_eq!(time_string_to_slot_number("00:20", &t), Some(1));
    assert_eq!(time_string_to_slot_number(" 00:35 (late)", &t), Some(2));
    assert_eq!(time_string_to_slot_number("00:36", &t), None);
    assert_eq!(time_string_to_slot_number("00:20", &[]), None);
}

#[test]
fn availability_answer_is_read_as_sorted_distinct_slots() {
    assert_eq!(parse_time_slots("01:15, 00:00,00:15 , 01:15", None), vec![1, 2, 4]);
    assert_eq!(parse_time_slots("", None), Vec::<u8>::new());
    assert_eq!(parse_time_slots("soon, 00:45 (maybe), 25:00", None), vec![3]);
    let t = calculate_time_slots("10:00", Some("12:00"));
    assert_eq!(parse_time_slots("11:45, 10:00, 00:00", Some(&t)), vec![1, 5]);
    assert_eq!(parse_time_slots("00:00", Some(&[])), Vec::<u8>::new());
}

#[test]
fn yes_answers() {
    assert!(parse_bool("yes"));
    assert!(parse_bool(" YES "));
    assert!(parse_bool("True"));
    assert!(parse_bool("1"));
    assert!(!parse_bool("no"));
    assert!(!parse_bool(""));
    assert!(!parse_bool("y"));
    assert!(!parse_bool("yes!"));
    assert!(!parse_bool("01"));
}

#[test]
fn number_answers() {
    assert_eq!(parse_number("42"), 42);
    assert_eq!(parse_number("  2100 "), 2100);
    assert_eq!(parse_number("+7"), 7);
    assert_eq!(parse_number(""), 0);
    assert_eq!(parse_number("12 hours"), 0);
    assert_eq!(parse_number("-3"), 0);
    assert_eq!(parse_number("4294967295"), 4294967295);
    assert_eq!(parse_number("4294967296"), 0);
}

#[test]
fn configured_time_prefers_the_custom_table() {
    let t = vec![(5u8, "00:00".to_string()), (6, " 01:00 ".to_string())];
    assert_eq!(configured_time_slot(" 00:00 ", &t), Some(5));
    assert_eq!(configured_time_slot("01:00", &t), Some(6));
    assert_eq!(configured_time_slot("00:15", &t), Some(2));
    assert_eq!(configured_time_slot("00:00", &[]), Some(1));
    assert_eq!(configured_time_slot("01:45 (late)", &[]), None);
    assert_eq!(configured_time_slot("never", &t), None);
}
