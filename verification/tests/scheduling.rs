use std::collections::{HashMap, HashSet};

use prep_appointments::parser::AppointmentEntry;
use prep_appointments::schedule::pins::{
    check_pins, closed_slots_of, excluded_players, schedule_with_pins, PinFault, PinnedSlot,
};
use prep_appointments::schedule::{
    apply_move_chain, calculate_slot_rankings, find_move_chain, schedule_construction_day,
    schedule_construction_day_with_locked, schedule_day_generic,
    schedule_day_generic_with_locked_slots, schedule_research_day,
    schedule_research_day_with_locked, schedule_troops_day, schedule_troops_day_with_locked, Day,
    DaySchedule, Move, ScheduledAppointment,
};

fn blank(id: &str) -> AppointmentEntry {
    AppointmentEntry {
        alliance: "ABC".to_string(),
        name: format!("name-{}", id),
        player_id: id.to_string(),
        wants_construction: false,
        wants_research: false,
        wants_troops: false,
        construction_speedups: 0,
        research_speedups: 0,
        troops_speedups: 0,
        construction_truegold: 0,
        construction_score: 0,
        research_truegold_dust: 0,
        research_score: 0,
        construction_available_slots: vec![],
        research_available_slots: vec![],
        troops_available_slots: vec![],
    }
}

fn troops_entry(id: &str, score: u32, slots: &[u8]) -> AppointmentEntry {
    let mut e = blank(id);
    e.wants_troops = true;
    e.troops_speedups = score;
    e.troops_available_slots = slots.to_vec();
    e
}

fn builder(id: &str, score: u32, slots: &[u8]) -> AppointmentEntry {
    let mut e = blank(id);
    e.wants_construction = true;
    e.construction_score = score;
    e.construction_available_slots = slots.to_vec();
    e
}

fn with_research(mut e: AppointmentEntry, score: u32, slots: &[u8]) -> AppointmentEntry {
    e.wants_research = true;
    e.research_score = score;
    e.research_available_slots = slots.to_vec();
    e
}

fn seat(id: &str, slot: u8, score: u32) -> ScheduledAppointment {
    ScheduledAppointment {
        player_id: id.to_string(),
        name: format!("name-{}", id),
        alliance: "ABC".to_string(),
        slot,
        priority_score: score,
    }
}

fn slots_of(schedule: &DaySchedule) -> Vec<(u8, String)> {
    let mut all: Vec<(u8, String)> =
        schedule.appointments.iter().map(|(s, a)| (*s, a.player_id.clone())).collect();
    all.sort();
    all
}

fn pair(slot: u8, id: &str) -> (u8, String) {
    (slot, id.to_string())
}

fn set_of(slots: &[u8]) -> HashSet<u8> {
    slots.iter().copied().collect()
}

#[test]
fn holder_with_a_free_alternative_makes_room() {
    // A (100) ranks slot 5 first, since two lists name it, and takes it.
    // B (50) lists slot 5 only; A can leave for slot 1, which is free and on
    // A's own list, so the one-move chain succeeds and both are seated.
    let entries = vec![troops_entry("A", 100, &[1, 5]), troops_entry("B", 50, &[5])];
    let schedule = schedule_troops_day(&entries);
    assert_eq!(slots_of(&schedule), vec![pair(1, "A"), pair(5, "B")]);
    assert_eq!(schedule.appointments[&1].slot, 1);
    assert_eq!(schedule.appointments[&1].priority_score, 100);
    assert_eq!(schedule.appointments[&1].name, "name-A");
    assert_eq!(schedule.appointments[&1].alliance, "ABC");
    assert_eq!(schedule.appointments[&5].priority_score, 50);
    assert!(schedule.unassigned.is_empty());
}

#[test]
fn holder_without_an_alternative_stays() {
    // A lists slot 5 only, so nothing can make room for B.
    let entries = vec![troops_entry("A", 100, &[5]), troops_entry("B", 50, &[5])];
    let schedule = schedule_troops_day(&entries);
    assert_eq!(slots_of(&schedule), vec![pair(5, "A")]);
    assert_eq!(schedule.appointments[&5].slot, 5);
    assert_eq!(schedule.appointments[&5].priority_score, 100);
    assert_eq!(schedule.unassigned, vec!["B".to_string()]);
}

#[test]
fn lower_score_steals_through_a_chain() {
    let entries = vec![troops_entry("F", 99, &[9, 2]), troops_entry("E", 10, &[9])];
    let schedule = schedule_troops_day(&entries);
    assert_eq!(slots_of(&schedule), vec![pair(2, "F"), pair(9, "E")]);
    assert_eq!(schedule.appointments[&2].slot, 2);
    assert_eq!(schedule.appointments[&2].priority_score, 99);
    assert_eq!(schedule.appointments[&9].priority_score, 10);
    assert!(schedule.unassigned.is_empty());
}

#[test]
fn popularity_counts_the_lists_that_name_a_slot() {
    let rankings = calculate_slot_rankings(&[vec![1, 5], vec![5], vec![5, 7, 7]]);
    assert_eq!(rankings.len(), 3);
    assert_eq!(rankings[&1], 1);
    assert_eq!(rankings[&5], 3);
    assert_eq!(rankings[&7], 1);
    assert!(!rankings.contains_key(&2));
}

#[test]
fn popularity_of_no_lists_is_empty() {
    assert!(calculate_slot_rankings(&[]).is_empty());
    assert!(calculate_slot_rankings(&[vec![], vec![]]).is_empty());
}

#[test]
fn popularity_does_not_depend_on_the_order_of_lists() {
    let a = calculate_slot_rankings(&[vec![1, 2], vec![2, 3], vec![3]]);
    let b = calculate_slot_rankings(&[vec![3], vec![1, 2], vec![2, 3]]);
    assert_eq!(a, b);
}

#[test]
fn most_popular_free_slot_is_taken_first() {
    // Slot 3 is named by two lists, slots 1 and 9 by one each.
    let entries = vec![troops_entry("A", 90, &[1, 3]), troops_entry("D", 10, &[3, 9])];
    let schedule = schedule_troops_day(&entries);
    assert_eq!(slots_of(&schedule), vec![pair(3, "A"), pair(9, "D")]);
    assert!(schedule.unassigned.is_empty());
}

#[test]
fn weakest_holder_is_relocated_first() {
    // A takes 3, B takes 4; C finds both taken.  B (80) is the weaker
    // holder: B leaves 4 for 3, whose holder A leaves for the free slot 1.
    let entries = vec![
        troops_entry("A", 90, &[1, 3]),
        troops_entry("B", 80, &[3, 4]),
        troops_entry("C", 70, &[3, 4]),
    ];
    let schedule = schedule_troops_day(&entries);
    assert_eq!(slots_of(&schedule), vec![pair(1, "A"), pair(3, "B"), pair(4, "C")]);
    assert!(schedule.unassigned.is_empty());
}

#[test]
fn equal_scores_keep_the_given_order() {
    let entries = vec![
        troops_entry("first", 7, &[4]),
        troops_entry("second", 7, &[4]),
        troops_entry("third", 7, &[4]),
    ];
    let schedule = schedule_troops_day(&entries);
    assert_eq!(slots_of(&schedule), vec![pair(4, "first")]);
    assert_eq!(schedule.unassigned, vec!["second".to_string(), "third".to_string()]);
}

#[test]
fn candidates_without_wish_or_slots_are_left_out() {
    let mut idle = troops_entry("idle", 500, &[1]);
    idle.wants_troops = false;
    let entries = vec![idle, troops_entry("empty", 400, &[]), troops_entry("A", 1, &[1])];
    let schedule = schedule_troops_day(&entries);
    assert_eq!(slots_of(&schedule), vec![pair(1, "A")]);
    assert!(schedule.unassigned.is_empty());
}

#[test]
fn closed_slot_is_never_assigned() {
    let entries = vec![troops_entry("A", 100, &[5]), troops_entry("B", 50, &[5, 6])];
    let schedule = schedule_troops_day_with_locked(&entries, &set_of(&[5]));
    assert_eq!(slots_of(&schedule), vec![pair(6, "B")]);
    assert_eq!(schedule.unassigned, vec!["A".to_string()]);
}

#[test]
fn closed_slot_is_no_target_of_a_chain() {
    // B could only make room for C by moving to slot 2, which is closed.
    let entries = vec![troops_entry("B", 50, &[1, 2]), troops_entry("C", 10, &[1])];
    let schedule = schedule_troops_day_with_locked(&entries, &set_of(&[2]));
    assert_eq!(slots_of(&schedule), vec![pair(1, "B")]);
    assert_eq!(schedule.unassigned, vec!["C".to_string()]);
}

#[test]
fn locked_slot_is_never_vacated() {
    // A sits in slot 1 and could move to 2, but slot 1 is locked.
    let entries = vec![troops_entry("A", 90, &[1, 2]), troops_entry("B", 10, &[1])];
    let free = schedule_day_generic_with_locked_slots(
        &entries,
        Day::Troops,
        &HashSet::new(),
        &HashSet::new(),
    );
    assert_eq!(slots_of(&free), vec![pair(1, "B"), pair(2, "A")]);
    let locked = schedule_day_generic_with_locked_slots(
        &entries,
        Day::Troops,
        &HashSet::new(),
        &set_of(&[1]),
    );
    assert_eq!(slots_of(&locked), vec![pair(1, "A")]);
    assert_eq!(locked.unassigned, vec!["B".to_string()]);
}

#[test]
fn steal_relocates_the_weaker_holder_and_a_cycle_fails() {
    // Popularity: slot 1 -> 3, slot 2 -> 3, slot 3 -> 1.
    // A takes 1 (listed first among equals) and B takes 2.  D finds both
    // taken and relocates the weaker holder, B (80), from 2 to 3.
    // C lists slot 1 only: A could only go to 2, whose holder D could only
    // go to 1, which A holds; A is on the path already, so C stays out.
    let entries = vec![
        troops_entry("A", 90, &[1, 2]),
        troops_entry("B", 80, &[2, 3]),
        troops_entry("D", 70, &[2, 1]),
        troops_entry("C", 10, &[1]),
    ];
    let schedule = schedule_troops_day(&entries);
    assert_eq!(slots_of(&schedule), vec![pair(1, "A"), pair(2, "D"), pair(3, "B")]);
    assert_eq!(schedule.appointments[&3].slot, 3);
    assert_eq!(schedule.unassigned, vec!["C".to_string()]);
}

#[test]
fn chain_through_two_holders() {
    // A holds 1 and B holds 2; slot 3 is free and only B lists it.
    // C wants 1: A moves to 2 once B has moved to 3.
    let entries = vec![
        troops_entry("A", 90, &[1, 2]),
        troops_entry("B", 80, &[2, 3]),
        troops_entry("C", 10, &[1]),
    ];
    // Popularity: slot 1 -> 2, slot 2 -> 2, slot 3 -> 1.
    let schedule = schedule_troops_day(&entries);
    assert_eq!(slots_of(&schedule), vec![pair(1, "C"), pair(2, "A"), pair(3, "B")]);
    assert_eq!(schedule.appointments[&2].slot, 2);
    assert_eq!(schedule.appointments[&2].priority_score, 90);
    assert_eq!(schedule.appointments[&3].slot, 3);
    assert!(schedule.unassigned.is_empty());
}

#[test]
fn rerun_gives_the_same_schedule() {
    let entries = vec![
        troops_entry("A", 7, &[1, 2]),
        troops_entry("B", 7, &[1, 2]),
        troops_entry("C", 7, &[1]),
        troops_entry("D", 9, &[2, 3]),
    ];
    let first = schedule_day_generic(&entries, Day::Troops);
    let second = schedule_day_generic(&entries, Day::Troops);
    assert_eq!(slots_of(&first), slots_of(&second));
    assert_eq!(first.unassigned, second.unassigned);
}

#[test]
fn nobody_is_booked_twice_and_slots_match() {
    let mut entries = Vec::new();
    for i in 0..30u32 {
        let a = (i % 7) as u8 + 1;
        let b = (i % 5) as u8 + 3;
        let c = (i % 3) as u8 + 8;
        entries.push(troops_entry(&format!("p{}", i), 1000 - i * 13 % 97, &[a, b, c]));
    }
    let schedule = schedule_troops_day(&entries);
    let mut ids: Vec<String> =
        schedule.appointments.values().map(|a| a.player_id.clone()).collect();
    let seated = ids.len();
    ids.sort();
    ids.dedup();
    assert_eq!(ids.len(), seated);
    for (slot, appt) in &schedule.appointments {
        assert_eq!(*slot, appt.slot);
        let entry = entries.iter().find(|e| e.player_id == appt.player_id).unwrap();
        assert!(entry.troops_available_slots.contains(slot));
        assert_eq!(appt.priority_score, entry.troops_speedups);
    }
    assert_eq!(seated + schedule.unassigned.len(), entries.len());
    for id in &schedule.unassigned {
        assert!(!ids.contains(id));
    }
}

#[test]
fn search_finds_a_free_slot_first() {
    let a = troops_entry("A", 1, &[4, 6, 7]);
    let roster = vec![&a];
    let mut schedule = HashMap::new();
    schedule.insert(4, seat("A", 4, 1));
    let used = set_of(&[4, 6]);
    let mut visited = vec!["A".to_string()];
    let chain = find_move_chain(
        "A",
        4,
        &[4, 6, 7],
        &schedule,
        &used,
        &roster,
        Day::Troops,
        1,
        5,
        &mut visited,
        &HashSet::new(),
    )
    .unwrap();
    assert_eq!(chain.len(), 1);
    assert_eq!(chain[0].player_id, "A");
    assert_eq!(chain[0].from_slot, 4);
    assert_eq!(chain[0].to_slot, 7);
    assert_eq!(visited, vec!["A".to_string()]);
}

#[test]
fn search_fails_from_a_locked_slot() {
    let a = troops_entry("A", 1, &[4, 7]);
    let roster = vec![&a];
    let mut schedule = HashMap::new();
    schedule.insert(4, seat("A", 4, 1));
    let mut visited = vec!["A".to_string()];
    let chain = find_move_chain(
        "A",
        4,
        &[4, 7],
        &schedule,
        &set_of(&[4]),
        &roster,
        Day::Troops,
        1,
        5,
        &mut visited,
        &set_of(&[4]),
    );
    assert!(chain.is_none());
    assert_eq!(visited, vec!["A".to_string()]);
}

#[test]
fn search_fails_beyond_the_depth_limit() {
    let a = troops_entry("A", 1, &[4, 7]);
    let roster = vec![&a];
    let mut schedule = HashMap::new();
    schedule.insert(4, seat("A", 4, 1));
    let mut visited = vec!["A".to_string()];
    let chain = find_move_chain(
        "A",
        4,
        &[4, 7],
        &schedule,
        &set_of(&[4]),
        &roster,
        Day::Troops,
        6,
        5,
        &mut visited,
        &HashSet::new(),
    );
    assert!(chain.is_none());
}

fn ladder() -> (Vec<AppointmentEntry>, HashMap<u8, ScheduledAppointment>, HashSet<u8>) {
    // Player i sits in slot i and accepts slots i and i + 1; slot 7 is free.
    let mut entries = Vec::new();
    let mut schedule = HashMap::new();
    let mut used = HashSet::new();
    for i in 1..=6u8 {
        let id = format!("p{}", i);
        entries.push(troops_entry(&id, 10, &[i, i + 1]));
        schedule.insert(i, seat(&id, i, 10));
        used.insert(i);
    }
    (entries, schedule, used)
}

#[test]
fn chain_of_five_moves_is_found() {
    let (entries, schedule, used) = ladder();
    let roster: Vec<&AppointmentEntry> = entries.iter().collect();
    // From slot 3 the free slot 7 is reached in four moves.
    let mut visited = vec!["p3".to_string()];
    let chain = find_move_chain(
        "p3",
        3,
        &[3, 4],
        &schedule,
        &used,
        &roster,
        Day::Troops,
        1,
        5,
        &mut visited,
        &HashSet::new(),
    )
    .unwrap();
    assert_eq!(chain.len(), 4);
    let from: Vec<u8> = chain.iter().map(|m| m.from_slot).collect();
    let to: Vec<u8> = chain.iter().map(|m| m.to_slot).collect();
    let who: Vec<&str> = chain.iter().map(|m| m.player_id.as_str()).collect();
    assert_eq!(from, vec![3, 4, 5, 6]);
    assert_eq!(to, vec![4, 5, 6, 7]);
    assert_eq!(who, vec!["p3", "p4", "p5", "p6"]);
    assert_eq!(
        visited,
        vec!["p3".to_string(), "p4".to_string(), "p5".to_string(), "p6".to_string()]
    );

    // From slot 2 it takes five moves, which is the limit.
    let mut visited = vec!["p2".to_string()];
    let chain = find_move_chain(
        "p2",
        2,
        &[2, 3],
        &schedule,
        &used,
        &roster,
        Day::Troops,
        1,
        5,
        &mut visited,
        &HashSet::new(),
    )
    .unwrap();
    assert_eq!(chain.len(), 5);
}

#[test]
fn chain_of_six_moves_is_not_found() {
    let (entries, schedule, used) = ladder();
    let roster: Vec<&AppointmentEntry> = entries.iter().collect();
    let mut visited = vec!["p1".to_string()];
    let chain = find_move_chain(
        "p1",
        1,
        &[1, 2],
        &schedule,
        &used,
        &roster,
        Day::Troops,
        1,
        5,
        &mut visited,
        &HashSet::new(),
    );
    assert!(chain.is_none());
    assert_eq!(visited, vec!["p1".to_string()]);
}

#[test]
fn search_does_not_revisit_a_player() {
    // A and B block each other; nothing is free.
    let a = troops_entry("A", 1, &[1, 2]);
    let b = troops_entry("B", 1, &[2, 1]);
    let roster = vec![&a, &b];
    let mut schedule = HashMap::new();
    schedule.insert(1, seat("A", 1, 1));
    schedule.insert(2, seat("B", 2, 1));
    let mut visited = vec!["A".to_string()];
    let chain = find_move_chain(
        "A",
        1,
        &[1, 2],
        &schedule,
        &set_of(&[1, 2]),
        &roster,
        Day::Troops,
        1,
        5,
        &mut visited,
        &HashSet::new(),
    );
    assert!(chain.is_none());
    assert_eq!(visited, vec!["A".to_string()]);
}

#[test]
fn search_skips_an_occupant_in_a_locked_slot() {
    let a = troops_entry("A", 1, &[1, 2, 3]);
    let b = troops_entry("B", 1, &[2, 9]);
    let c = troops_entry("C", 1, &[3, 8]);
    let roster = vec![&a, &b, &c];
    let mut schedule = HashMap::new();
    schedule.insert(1, seat("A", 1, 1));
    schedule.insert(2, seat("B", 2, 1));
    schedule.insert(3, seat("C", 3, 1));
    let mut visited = vec!["A".to_string()];
    let chain = find_move_chain(
        "A",
        1,
        &[1, 2, 3],
        &schedule,
        &set_of(&[1, 2, 3]),
        &roster,
        Day::Troops,
        1,
        5,
        &mut visited,
        &set_of(&[2]),
    )
    .unwrap();
    let legs: Vec<(String, u8, u8)> =
        chain.iter().map(|m| (m.player_id.clone(), m.from_slot, m.to_slot)).collect();
    assert_eq!(legs, vec![("A".to_string(), 1, 3), ("C".to_string(), 3, 8)]);
}

#[test]
fn chain_is_applied_last_move_first() {
    let mut schedule = HashMap::new();
    schedule.insert(1, seat("A", 1, 5));
    schedule.insert(2, seat("B", 2, 6));
    let mut used = set_of(&[1, 2]);
    let chain = vec![
        Move { player_id: "A".to_string(), from_slot: 1, to_slot: 2 },
        Move { player_id: "B".to_string(), from_slot: 2, to_slot: 3 },
    ];
    let refused = apply_move_chain(&chain, &mut schedule, &mut used);
    assert!(refused.is_empty());
    assert_eq!(schedule.len(), 2);
    assert_eq!(schedule[&2].player_id, "A");
    assert_eq!(schedule[&2].slot, 2);
    assert_eq!(schedule[&2].priority_score, 5);
    assert_eq!(schedule[&3].player_id, "B");
    assert_eq!(schedule[&3].slot, 3);
    assert_eq!(used, set_of(&[2, 3]));
}

#[test]
fn move_of_the_wrong_player_is_refused() {
    let mut schedule = HashMap::new();
    schedule.insert(1, seat("A", 1, 5));
    let mut used = set_of(&[1]);
    let chain = vec![Move { player_id: "Z".to_string(), from_slot: 1, to_slot: 2 }];
    let refused = apply_move_chain(&chain, &mut schedule, &mut used);
    assert_eq!(refused, vec![1]);
    assert_eq!(schedule.len(), 1);
    assert_eq!(schedule[&1].player_id, "A");
    assert_eq!(schedule[&1].slot, 1);
    assert_eq!(used, set_of(&[1]));
}

#[test]
fn move_from_an_empty_slot_is_passed_over() {
    let mut schedule: HashMap<u8, ScheduledAppointment> = HashMap::new();
    let mut used = HashSet::new();
    let chain = vec![Move { player_id: "A".to_string(), from_slot: 1, to_slot: 2 }];
    let refused = apply_move_chain(&chain, &mut schedule, &mut used);
    assert!(refused.is_empty());
    assert!(schedule.is_empty());
    assert!(used.is_empty());
}

#[test]
fn construction_gives_the_last_slot_to_the_best_favoured() {
    let entries = vec![
        builder("plain", 900, &[1, 10]),
        with_research(builder("low", 100, &[1, 10]), 5, &[1, 2]),
        with_research(builder("high", 200, &[1, 10]), 5, &[1, 2]),
        with_research(builder("late", 999, &[1, 10]), 5, &[2, 3]),
    ];
    let schedule = schedule_construction_day(&entries);
    // Slot 10 is the day's last slot; "high" is the best of those who can
    // carry on into research's first slot.
    assert_eq!(schedule.appointments[&10].player_id, "high");
    assert_eq!(schedule.appointments[&10].priority_score, 200);
    // "late" comes next by score and takes the remaining slot.
    assert_eq!(schedule.appointments[&1].player_id, "late");
    assert_eq!(schedule.unassigned, vec!["plain".to_string(), "low".to_string()]);
}

#[test]
fn construction_last_slot_defaults_to_forty_nine() {
    let schedule = schedule_construction_day(&[]);
    assert!(schedule.appointments.is_empty());
    assert!(schedule.unassigned.is_empty());
}

#[test]
fn construction_last_slot_needs_a_strictly_higher_combined_score() {
    // "holder" gets slot 10 outright: combined score 100 + 50 = 150.
    let holder = with_research(builder("holder", 100, &[10, 11]), 50, &[1]);
    // "equal" has construction score 150 and no research: combined 150.
    let equal = builder("equal", 150, &[10]);
    // Slot 11 exists only so that the holder could be relocated.
    let filler = builder("filler", 1, &[11]);
    let entries = vec![holder.clone(), equal, filler.clone()];
    let schedule = schedule_construction_day(&entries);
    // Last slot is 11, so slot 10 is not gated here: "equal" may steal.
    assert_eq!(schedule.appointments[&10].player_id, "equal");

    // Now make 10 the last slot: the holder can move to 9.
    let holder = with_research(builder("holder", 100, &[9, 10]), 50, &[1]);
    let equal = builder("equal", 150, &[10]);
    let schedule = schedule_construction_day(&[holder.clone(), equal]);
    assert_eq!(schedule.appointments[&10].player_id, "holder");
    assert_eq!(schedule.unassigned, vec!["equal".to_string()]);

    let better = builder("better", 151, &[10]);
    let schedule = schedule_construction_day(&[holder, better]);
    assert_eq!(schedule.appointments[&10].player_id, "better");
    assert_eq!(schedule.appointments[&9].player_id, "holder");
    assert!(schedule.unassigned.is_empty());
}

#[test]
fn construction_combined_score_adds_research_only_for_the_eligible() {
    // Holder: construction 100, research 50 but does not accept research
    // slot 1, so it is not favoured and its combined score is 100.
    let holder = with_research(builder("holder", 100, &[9, 10]), 50, &[2]);
    let rival = builder("rival", 99, &[10]);
    let schedule = schedule_construction_day(&[holder.clone(), rival]);
    // The holder ranks slot 10 first (two lists name it) and takes it; the
    // rival's 99 does not exceed 100.
    assert_eq!(schedule.appointments[&10].player_id, "holder");
    assert_eq!(schedule.unassigned, vec!["rival".to_string()]);

    let rival = with_research(builder("rival", 99, &[10]), 2, &[1]);
    // Now the rival is favoured and gets the last slot outright.
    let schedule = schedule_construction_day(&[holder, rival]);
    assert_eq!(schedule.appointments[&10].player_id, "rival");
    assert_eq!(schedule.appointments[&9].player_id, "holder");
}

#[test]
fn construction_respects_closed_slots() {
    let entries = vec![
        with_research(builder("fav", 10, &[5, 6]), 1, &[1]),
        builder("other", 20, &[5, 6]),
    ];
    let schedule = schedule_construction_day_with_locked(&entries, &set_of(&[6]), None);
    // The last slot 6 is closed, so nobody is seated there.
    assert!(!schedule.appointments.contains_key(&6));
    assert_eq!(slots_of(&schedule), vec![pair(5, "other")]);
    assert_eq!(schedule.unassigned, vec!["fav".to_string()]);
}

#[test]
fn construction_takes_a_given_last_slot() {
    // Nobody lists slot 20, so without it the last slot would be 6.
    let entries = vec![
        with_research(builder("fav", 10, &[5, 6]), 1, &[1]),
        builder("other", 20, &[5, 6]),
    ];
    let derived = schedule_construction_day_with_locked(&entries, &HashSet::new(), None);
    assert_eq!(slots_of(&derived), vec![pair(5, "other"), pair(6, "fav")]);
    let given = schedule_construction_day_with_locked(&entries, &HashSet::new(), Some(20));
    // With last slot 20 nobody is favoured; both rank 5 and 6 alike.
    assert_eq!(slots_of(&given), vec![pair(5, "other"), pair(6, "fav")]);
    let gated = schedule_construction_day_with_locked(
        &[builder("holder", 100, &[5, 6]), builder("weak", 50, &[5])],
        &HashSet::new(),
        Some(5),
    );
    // Slot 5 is the gated last slot: 50 does not exceed 100.
    assert_eq!(slots_of(&gated), vec![pair(5, "holder")]);
    assert_eq!(gated.unassigned, vec!["weak".to_string()]);
    let open = schedule_construction_day_with_locked(
        &[builder("holder", 100, &[5, 6]), builder("weak", 50, &[5])],
        &HashSet::new(),
        Some(9),
    );
    assert_eq!(slots_of(&open), vec![pair(5, "weak"), pair(6, "holder")]);
}

#[test]
fn research_hands_the_first_slot_to_the_holder_of_the_last() {
    let entries = vec![
        with_research(builder("carry", 10, &[8]), 1, &[1, 2]),
        with_research(builder("strong", 5, &[3]), 900, &[1]),
    ];
    let construction = schedule_construction_day(&entries);
    assert_eq!(construction.appointments[&8].player_id, "carry");
    let research = schedule_research_day(&entries, &construction);
    assert_eq!(research.appointments[&1].player_id, "carry");
    assert_eq!(research.appointments[&1].slot, 1);
    assert_eq!(research.appointments[&1].priority_score, 1);
    assert_eq!(research.appointments.len(), 1);
    assert_eq!(research.unassigned, vec!["strong".to_string()]);
}

#[test]
fn research_hand_off_needs_the_wish_and_the_slot() {
    let entries = vec![
        with_research(builder("carry", 10, &[8]), 1, &[2]),
        with_research(blank("strong"), 900, &[1]),
    ];
    let construction = schedule_construction_day(&entries);
    let research = schedule_research_day(&entries, &construction);
    assert_eq!(slots_of(&research), vec![pair(1, "strong"), pair(2, "carry")]);
}

#[test]
fn research_hand_off_yields_to_a_closed_first_slot() {
    let entries = vec![
        with_research(builder("carry", 10, &[8]), 1, &[1, 2]),
        with_research(blank("strong"), 900, &[1]),
    ];
    let construction = schedule_construction_day(&entries);
    let research = schedule_research_day_with_locked(&entries, &construction, &set_of(&[1]));
    assert!(!research.appointments.contains_key(&1));
    assert_eq!(slots_of(&research), vec![pair(2, "carry")]);
    assert_eq!(research.unassigned, vec!["strong".to_string()]);
}

#[test]
fn research_without_construction_is_a_plain_day() {
    let entries = vec![with_research(blank("a"), 3, &[1]), with_research(blank("b"), 9, &[1, 4])];
    let nothing = DaySchedule { appointments: HashMap::new(), unassigned: vec![] };
    let research = schedule_research_day(&entries, &nothing);
    // "b" takes slot 1 first and then makes room for "a" by leaving for 4.
    assert_eq!(slots_of(&research), vec![pair(1, "a"), pair(4, "b")]);
}

#[test]
fn research_hand_off_cannot_be_stolen() {
    // "carry" is handed slot 1 and could move to 2, but the seat is locked
    // and "carry" takes no further part in the run.
    let entries = vec![
        with_research(builder("carry", 10, &[8]), 1, &[1, 2]),
        with_research(blank("rival"), 900, &[1]),
    ];
    let construction = schedule_construction_day(&entries);
    let research = schedule_research_day(&entries, &construction);
    assert_eq!(slots_of(&research), vec![pair(1, "carry")]);
    assert_eq!(research.unassigned, vec!["rival".to_string()]);
}

#[test]
fn day_selects_wish_slots_and_score() {
    let e = with_research(builder("x", 11, &[1, 2]), 22, &[3]);
    assert!(Day::Construction.wants(&e));
    assert!(Day::Research.wants(&e));
    assert!(!Day::Troops.wants(&e));
    assert_eq!(Day::Construction.available_slots(&e), &vec![1, 2]);
    assert_eq!(Day::Research.available_slots(&e), &vec![3]);
    assert_eq!(Day::Construction.priority_score(&e), 11);
    assert_eq!(Day::Research.priority_score(&e), 22);
    assert!(!Day::Troops.is_participant(&e));
    let seat = Day::Research.seat(&e, 3);
    assert_eq!(seat.player_id, "x");
    assert_eq!(seat.slot, 3);
    assert_eq!(seat.priority_score, 22);
}

fn pin(day: Day, slot: u8, id: &str) -> PinnedSlot {
    PinnedSlot {
        day,
        slot,
        player_id: id.to_string(),
        alliance: "PIN".to_string(),
        name: format!("pinned-{}", id),
    }
}

#[test]
fn pins_close_their_slots_and_keep_their_players_out() {
    let pins = vec![pin(Day::Troops, 4, "x"), pin(Day::Construction, 7, "y")];
    let closed = closed_slots_of(&pins, Day::Troops, 49, &set_of(&[9]));
    assert_eq!(closed, set_of(&[4, 9]));
    assert_eq!(closed_slots_of(&pins, Day::Research, 49, &HashSet::new()), HashSet::new());
    assert_eq!(excluded_players(&pins, Day::Troops, 49), vec!["x".to_string()]);
    assert_eq!(excluded_players(&pins, Day::Construction, 49), vec!["y".to_string()]);
    assert!(excluded_players(&pins, Day::Research, 49).is_empty());
}

#[test]
fn link_between_the_days_closes_the_other_slot() {
    // A pin on construction's last slot claims research's first slot.
    let pins = vec![pin(Day::Construction, 49, "y")];
    assert_eq!(closed_slots_of(&pins, Day::Research, 49, &HashSet::new()), set_of(&[1]));
    assert_eq!(excluded_players(&pins, Day::Research, 49), vec!["y".to_string()]);
    // A pin on research's first slot claims construction's last slot.
    let pins = vec![pin(Day::Research, 1, "z")];
    assert_eq!(closed_slots_of(&pins, Day::Construction, 30, &HashSet::new()), set_of(&[30]));
    assert_eq!(excluded_players(&pins, Day::Construction, 30), vec!["z".to_string()]);
    // Not where the player has a construction pin of their own.
    let pins = vec![pin(Day::Research, 1, "z"), pin(Day::Construction, 3, "z")];
    assert_eq!(closed_slots_of(&pins, Day::Construction, 30, &HashSet::new()), set_of(&[3]));
}

#[test]
fn pin_faults() {
    let none: Option<&DaySchedule> = None;
    let ok = vec![pin(Day::Research, 1, "a"), pin(Day::Construction, 49, "a")];
    assert_eq!(check_pins(&ok, 49, true, none, none, none), None);
    let twice = vec![pin(Day::Research, 1, "a"), pin(Day::Research, 1, "b")];
    assert_eq!(
        check_pins(&twice, 49, false, none, none, none),
        Some(PinFault::ResearchFirstTwice)
    );
    let link = vec![pin(Day::Research, 1, "a"), pin(Day::Construction, 49, "b")];
    assert_eq!(check_pins(&link, 49, false, none, none, none), Some(PinFault::LinkTwice));
    assert_eq!(check_pins(&link, 48, false, none, none, none), None);

    let mut earlier = DaySchedule { appointments: HashMap::new(), unassigned: vec![] };
    earlier.appointments.insert(4, seat("other", 4, 1));
    earlier.appointments.insert(1, seat("other", 1, 1));
    let taken = vec![pin(Day::Troops, 3, "x"), pin(Day::Troops, 4, "x")];
    assert_eq!(
        check_pins(&taken, 49, true, none, none, Some(&earlier)),
        Some(PinFault::SlotTaken(1))
    );
    assert_eq!(check_pins(&taken, 49, false, none, none, Some(&earlier)), None);
    let same = vec![pin(Day::Troops, 4, "other")];
    assert_eq!(check_pins(&same, 49, true, none, none, Some(&earlier)), None);
    let linked = vec![pin(Day::Construction, 49, "a")];
    assert_eq!(
        check_pins(&linked, 49, true, none, Some(&earlier), none),
        Some(PinFault::ResearchFirstTaken)
    );
    let mut last = DaySchedule { appointments: HashMap::new(), unassigned: vec![] };
    last.appointments.insert(49, seat("other", 49, 1));
    let linked = vec![pin(Day::Research, 1, "a")];
    assert_eq!(
        check_pins(&linked, 49, true, Some(&last), none, none),
        Some(PinFault::ConstructionLastTaken)
    );
}

#[test]
fn pinned_players_are_entered_after_the_run() {
    let entries = vec![
        troops_entry("x", 5, &[4, 5]),
        troops_entry("A", 100, &[4, 5]),
        troops_entry("B", 50, &[4]),
    ];
    let pins = vec![pin(Day::Troops, 4, "x")];
    let days = schedule_with_pins(
        &entries,
        &pins,
        49,
        &HashSet::new(),
        &HashSet::new(),
        &HashSet::new(),
    );
    // Slot 4 is closed to the run and "x" takes no part in it.
    assert_eq!(slots_of(&days.troops), vec![pair(4, "x"), pair(5, "A")]);
    assert_eq!(days.troops.appointments[&4].priority_score, 9999);
    assert_eq!(days.troops.appointments[&4].name, "pinned-x");
    assert_eq!(days.troops.appointments[&4].alliance, "PIN");
    assert_eq!(days.troops.unassigned, vec!["B".to_string()]);
    assert!(days.construction.appointments.is_empty());
    assert!(days.research.appointments.is_empty());
}

#[test]
fn pin_on_one_side_of_the_link_seats_the_other_side() {
    let entries = vec![builder("c", 10, &[20, 21]), with_research(blank("r"), 5, &[1, 2])];
    let pins = vec![pin(Day::Construction, 21, "y")];
    let days = schedule_with_pins(
        &entries,
        &pins,
        21,
        &HashSet::new(),
        &HashSet::new(),
        &HashSet::new(),
    );
    assert_eq!(slots_of(&days.construction), vec![pair(20, "c"), pair(21, "y")]);
    assert_eq!(slots_of(&days.research), vec![pair(1, "y"), pair(2, "r")]);
    assert_eq!(days.research.appointments[&1].slot, 1);

    let pins = vec![pin(Day::Research, 1, "c")];
    let days = schedule_with_pins(
        &entries,
        &pins,
        21,
        &HashSet::new(),
        &HashSet::new(),
        &HashSet::new(),
    );
    // "c" is kept out of construction's run and entered in its last slot.
    assert_eq!(slots_of(&days.construction), vec![pair(21, "c")]);
    assert_eq!(days.construction.appointments[&21].priority_score, 9999);
    assert_eq!(slots_of(&days.research), vec![pair(1, "c"), pair(2, "r")]);
}

#[test]
fn holder_of_the_last_slot_is_ranked_by_own_score() {
    // H is favoured and gets slot 49 outright; Q takes slot 5.  R finds both
    // of its slots taken.  The holders are tried lowest own score first: H
    // (100) before Q (120).  Slot 49 is the gated slot, and R's combined
    // score 60 + 100 exceeds H's 100 + 50, so H leaves for slot 3 and R
    // takes slot 49.
    let h = with_research(builder("H", 100, &[3, 49]), 50, &[1]);
    let q = builder("Q", 120, &[5, 6]);
    let r = with_research(builder("R", 60, &[5, 49]), 100, &[1]);
    let schedule =
        schedule_construction_day_with_locked(&[h, q, r], &HashSet::new(), None);
    assert_eq!(slots_of(&schedule), vec![pair(3, "H"), pair(5, "Q"), pair(49, "R")]);
    assert_eq!(schedule.appointments[&49].priority_score, 60);
    assert_eq!(schedule.appointments[&3].priority_score, 100);
    assert!(schedule.unassigned.is_empty());
}

#[test]
fn gate_turns_the_challenger_to_the_next_holder() {
    // As above, but R's research score is too low: combined 60 + 40 does not
    // exceed 150, so slot 49 is passed over and Q makes room instead.
    let h = with_research(builder("H", 100, &[3, 49]), 50, &[1]);
    let q = builder("Q", 120, &[5, 6]);
    let r = with_research(builder("R", 60, &[5, 49]), 40, &[1]);
    let schedule =
        schedule_construction_day_with_locked(&[h, q, r], &HashSet::new(), None);
    assert_eq!(slots_of(&schedule), vec![pair(5, "R"), pair(6, "Q"), pair(49, "H")]);
    assert!(schedule.unassigned.is_empty());
}

#[test]
fn order_of_entries_with_different_scores_does_not_matter() {
    let a = troops_entry("A", 90, &[1, 2]);
    let b = troops_entry("B", 80, &[2, 3]);
    let c = troops_entry("C", 70, &[1]);
    let d = troops_entry("D", 60, &[2, 1]);
    let given = schedule_troops_day(&[a.clone(), b.clone(), c.clone(), d.clone()]);
    let turned = schedule_troops_day(&[d, c, b, a]);
    assert_eq!(slots_of(&given), slots_of(&turned));
    assert_eq!(given.unassigned, turned.unassigned);
}

#[test]
fn seats_and_leftovers_number_the_candidates() {
    let mut entries = Vec::new();
    for i in 0..12u32 {
        let slot = (i % 4) as u8 + 1;
        let mut e = builder(&format!("p{}", i), 100 + i, &[slot, 40]);
        if i % 3 == 0 {
            e = with_research(e, i, &[1, 2]);
        }
        entries.push(e);
    }
    entries.push(blank("idle"));
    let construction = schedule_construction_day(&entries);
    assert_eq!(construction.appointments.len() + construction.unassigned.len(), 12);
    for id in &construction.unassigned {
        assert!(construction.appointments.values().all(|a| &a.player_id != id));
    }
    let research = schedule_research_day(&entries, &construction);
    assert_eq!(research.appointments.len() + research.unassigned.len(), 4);
    for id in &research.unassigned {
        assert!(research.appointments.values().all(|a| &a.player_id != id));
    }
}

#[test]
fn run_without_entries_seats_nobody() {
    let nothing = DaySchedule { appointments: HashMap::new(), unassigned: vec![] };
    let closed = set_of(&[1, 2]);
    let c = schedule_construction_day_with_locked(&[], &closed, Some(7));
    let r = schedule_research_day_with_locked(&[], &nothing, &closed);
    let t = schedule_troops_day_with_locked(&[], &closed);
    for day in [&c, &r, &t] {
        assert!(day.appointments.is_empty());
        assert!(day.unassigned.is_empty());
    }
}
