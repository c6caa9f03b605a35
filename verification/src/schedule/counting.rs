//! Counting a day's outcome: every candidate ends up in exactly one
//! place, seated or on the unassigned list, so the two together number
//! as many as the candidates.

use vstd::prelude::*;
use crate::parser::EntryView;
use super::append::{merged_appointments, unscheduled};
use super::census::{
    ids_distinct, lemma_counts_distinct, lemma_distinct_counts, lemma_occurrences_by_score,
    lemma_occurrences_found, lemma_occurrences_select, lemma_occurrences_without, occurrences,
};
use super::construction::{
    chosen_last_slot, construction_queue, construction_rules, construction_schedule,
    construction_start, last_slot_winner, select_favoured,
};
use super::generic::{
    by_score, candidates_of, first_steal_from, first_untaken_from, fresh_start, generic_schedule,
    pool_rules, pool_schedule, ranked_slots, run_spec, score_keys, seat_candidate_spec, steal_chain,
    steal_order, without_player, DayRules, RunState,
};
use super::laws::{
    construction_people, lemma_by_score_distinct, lemma_candidates_distinct,
    lemma_construction_people_distinct, lemma_first_steal, lemma_first_untaken,
    lemma_place_keeps_shape, lemma_pool_schedule_laws, lemma_run_keeps_shape, lemma_run_unassigned,
    lemma_steal_chain, lemma_without_player, run_inv, unassigned_from,
};
use super::move_chain::{
    apply_chain, board_tidy, lemma_apply_fitting_chain, refused_moves, relocated,
};
use super::ordering::lemma_sorted_by_keys;
use super::research::{handoff, research_schedule, HANDOFF_SLOT};
use super::seating::{is_seated, lemma_candidate_listed, lemma_handoff};
use super::types::{AppointmentView, Board, Day};

verus! {

/// No move of a chain that the assigner commits on a tidy board is
/// refused.
pub proof fn law_committed_chain_refuses_nothing(rules: DayRules, b: Board, c: EntryView, slot: u8)
    requires
        board_tidy(b),
        steal_chain(rules, b, c, slot).is_some(),
    ensures
        refused_moves(b, steal_chain(rules, b, c, slot).unwrap()) == Seq::<u8>::empty(),
{
    lemma_steal_chain(rules, b, c, slot);
    lemma_apply_fitting_chain(b, steal_chain(rules, b, c, slot).unwrap());
}

/// After a candidate has been seated, every seat is theirs or belongs to
/// somebody who was seated before.
pub proof fn lemma_seat_sources(
    rules: DayRules,
    b: Board,
    c: EntryView,
    pre_locked: Set<u8>,
    people: Seq<EntryView>,
)
    requires
        run_inv(b, rules.day, pre_locked, people),
    ensures
        forall|t: u8| #[trigger]
            seat_candidate_spec(rules, b, c).board.seats.contains_key(t) ==> seat_candidate_spec(
                rules,
                b,
                c,
            ).board.seats[t].player_id == c.player_id || is_seated(
                b.seats,
                seat_candidate_spec(rules, b, c).board.seats[t].player_id,
            ),
{
    let after = seat_candidate_spec(rules, b, c).board;
    let ranked = ranked_slots(rules.day.slots_spec(c), rules.rankings);
    assert forall|t: u8| #[trigger] after.seats.contains_key(t) implies after.seats[t].player_id
        == c.player_id || is_seated(b.seats, after.seats[t].player_id) by {
        lemma_first_untaken(ranked, 0, b.used);
        match first_untaken_from(ranked, 0, b.used) {
            Some(slot) => {
                if t != slot {
                    assert(b.seats.contains_key(t) && b.seats[t].player_id
                        == after.seats[t].player_id);
                }
            },
            None => {
                let targets = steal_order(rules.roster, b.seats, ranked);
                lemma_first_steal(rules, b, c, targets, 0);
                match first_steal_from(rules, b, c, targets, 0) {
                    Some(i) => {
                        let slot = targets[i];
                        let chain = steal_chain(rules, b, c, slot).unwrap();
                        lemma_steal_chain(rules, b, c, slot);
                        lemma_apply_fitting_chain(b, chain);
                        let moved = apply_chain(b, chain);
                        if t != slot {
                            assert(moved.seats.contains_key(t));
                            let s = choose|s: u8| #[trigger]
                                b.seats.contains_key(s) && moved.seats[t] == relocated(
                                    b.seats[s],
                                    t,
                                );
                            assert(b.seats.contains_key(s) && b.seats[s].player_id
                                == after.seats[t].player_id);
                        }
                    },
                    None => {
                        assert(b.seats.contains_key(t) && b.seats[t].player_id
                            == after.seats[t].player_id);
                    },
                }
            },
        }
    }
}

/// Seating a candidate adds one seat where they get one, and none
/// otherwise.
pub proof fn lemma_seat_counts(
    rules: DayRules,
    b: Board,
    c: EntryView,
    pre_locked: Set<u8>,
    people: Seq<EntryView>,
)
    requires
        run_inv(b, rules.day, pre_locked, people),
        b.seats.dom().finite(),
    ensures
        seat_candidate_spec(rules, b, c).board.seats.dom().finite(),
        seat_candidate_spec(rules, b, c).board.seats.dom().len() == b.seats.dom().len()
            + if seat_candidate_spec(rules, b, c).seated {
            1nat
        } else {
            0nat
        },
{
    let after = seat_candidate_spec(rules, b, c).board;
    let ranked = ranked_slots(rules.day.slots_spec(c), rules.rankings);
    lemma_first_untaken(ranked, 0, b.used);
    match first_untaken_from(ranked, 0, b.used) {
        Some(slot) => {
            assert(!b.seats.dom().contains(slot));
            assert(after.seats.dom() =~= b.seats.dom().insert(slot));
        },
        None => {
            let targets = steal_order(rules.roster, b.seats, ranked);
            lemma_first_steal(rules, b, c, targets, 0);
            match first_steal_from(rules, b, c, targets, 0) {
                Some(i) => {
                    let slot = targets[i];
                    let chain = steal_chain(rules, b, c, slot).unwrap();
                    lemma_steal_chain(rules, b, c, slot);
                    lemma_apply_fitting_chain(b, chain);
                    let moved = apply_chain(b, chain);
                    let free = chain.last().to_slot;
                    assert(b.seats.dom().contains(slot));
                    assert(!b.seats.dom().contains(free));
                    let without = b.seats.dom().remove(slot);
                    assert(without.len() == b.seats.dom().len() - 1);
                    assert(!without.contains(free));
                    assert(moved.seats.dom() == without.insert(free));
                    assert(moved.seats.dom().len() == b.seats.dom().len());
                    assert(!moved.seats.dom().contains(slot));
                    assert(after.seats.dom() =~= moved.seats.dom().insert(slot));
                },
                None => {},
            }
        },
    }
}

/// After a run the seats and the unassigned list together have grown by
/// the length of the queue.
pub proof fn lemma_run_counts(
    rules: DayRules,
    start: RunState,
    queue: Seq<EntryView>,
    pre_locked: Set<u8>,
    people: Seq<EntryView>,
)
    requires
        run_inv(start.board, rules.day, pre_locked, people),
        start.board.seats.dom().finite(),
    ensures
        run_spec(rules, start, queue).board.seats.dom().finite(),
        run_spec(rules, start, queue).board.seats.dom().len() + run_spec(
            rules,
            start,
            queue,
        ).unassigned.len() == start.board.seats.dom().len() + start.unassigned.len() + queue.len(),
    decreases queue.len(),
{
    if queue.len() > 0 {
        let init = queue.drop_last();
        lemma_run_counts(rules, start, init, pre_locked, people);
        lemma_run_keeps_shape(rules, start, init, pre_locked, people);
        let prev = run_spec(rules, start, init);
        lemma_seat_counts(rules, prev.board, queue.last(), pre_locked, people + init);
    }
}

/// After a run nobody on the unassigned list holds a slot, and nobody is
/// on the list twice, where the run started with an empty list and no
/// two of the people involved share an id.
pub proof fn lemma_run_never_both(
    rules: DayRules,
    start: RunState,
    queue: Seq<EntryView>,
    pre_locked: Set<u8>,
    people: Seq<EntryView>,
)
    requires
        run_inv(start.board, rules.day, pre_locked, people),
        start.unassigned.len() == 0,
        ids_distinct(people + queue),
    ensures
        forall|i: int|
            0 <= i < run_spec(rules, start, queue).unassigned.len() ==> !is_seated(
                run_spec(rules, start, queue).board.seats,
                #[trigger] run_spec(rules, start, queue).unassigned[i],
            ),
        run_spec(rules, start, queue).unassigned.no_duplicates(),
        unassigned_from(run_spec(rules, start, queue).unassigned, queue),
    decreases queue.len(),
{
    let nobody = Seq::<EntryView>::empty();
    let end = run_spec(rules, start, queue);
    lemma_run_unassigned(rules, start, queue, nobody);
    assert(nobody + queue =~= queue);
    if queue.len() > 0 {
        let init = queue.drop_last();
        let c = queue.last();
        let all = people + queue;
        assert forall|i: int, j: int| 0 <= i < j < (people + init).len() implies (#[trigger] (people
            + init)[i]).player_id != (#[trigger] (people + init)[j]).player_id by {
            assert(all[i] == (people + init)[i] && all[j] == (people + init)[j]);
        }
        lemma_run_never_both(rules, start, init, pre_locked, people);
        lemma_run_keeps_shape(rules, start, init, pre_locked, people);
        let prev = run_spec(rules, start, init);
        lemma_seat_sources(rules, prev.board, c, pre_locked, people + init);
        // Nobody noted before carries the id of the candidate who is seated now.
        assert forall|i: int| 0 <= i < prev.unassigned.len() implies #[trigger] prev.unassigned[i]
            != c.player_id by {
            let k = choose|k: int|
                0 <= k < init.len() && (#[trigger] init[k]).player_id == prev.unassigned[i];
            assert(all[people.len() + k] == init[k]);
            assert(all[people.len() + queue.len() - 1] == c);
            assert(all[people.len() + k].player_id != all[people.len() + queue.len() - 1].player_id);
        }
        assert forall|i: int| 0 <= i < end.unassigned.len() implies !is_seated(
            end.board.seats,
            #[trigger] end.unassigned[i],
        ) by {
            let u = end.unassigned[i];
            if is_seated(end.board.seats, u) {
                let t = choose|t: u8| #[trigger]
                    end.board.seats.contains_key(t) && end.board.seats[t].player_id == u;
                if i < prev.unassigned.len() {
                    assert(prev.unassigned[i] == u);
                    assert(!is_seated(prev.board.seats, prev.unassigned[i]));
                } else {
                    // The candidate was left over: the board is as it was,
                    // and everybody seated is somebody else.
                    assert(u == c.player_id);
                    assert(end.board == prev.board);
                    let k = choose|k: int|
                        0 <= k < (people + init).len() && prev.board.seats[t]
                            == rules.day.seat_spec(#[trigger] (people + init)[k], t);
                    assert(all[k] == (people + init)[k]);
                    assert(all[people.len() + queue.len() - 1] == c);
                    assert(all[k].player_id != all[people.len() + queue.len() - 1].player_id);
                }
            }
        }
        assert forall|i: int, j: int|
            0 <= i < end.unassigned.len() && 0 <= j < end.unassigned.len() && i
                != j implies end.unassigned[i] != end.unassigned[j] by {
            if i < prev.unassigned.len() && j < prev.unassigned.len() {
                assert(prev.unassigned[i] != prev.unassigned[j]);
            } else if i < prev.unassigned.len() {
                assert(prev.unassigned[i] != c.player_id);
            } else if j < prev.unassigned.len() {
                assert(prev.unassigned[j] != c.player_id);
            }
        }
    }
}

/// Ranking keeps the number of candidates.
proof fn lemma_by_score_len(pool: Seq<EntryView>, day: Day)
    ensures
        by_score(pool, day).len() == pool.len(),
{
    lemma_sorted_by_keys(pool, score_keys(pool, day), true);
}

/// In the schedule of a pool the appointments and the unassigned list
/// together number as many as the pool.
pub proof fn lemma_pool_counts(pool: Seq<EntryView>, day: Day, pre_locked: Set<u8>, locked: Set<u8>)
    ensures
        pool_schedule(pool, day, pre_locked, locked).appointments.dom().finite(),
        pool_schedule(pool, day, pre_locked, locked).appointments.dom().len() + pool_schedule(
            pool,
            day,
            pre_locked,
            locked,
        ).unassigned.len() == pool.len(),
{
    let rules = pool_rules(pool, day, locked);
    let start = fresh_start(pre_locked);
    let nobody = Seq::<EntryView>::empty();
    assert(run_inv(start.board, day, pre_locked, nobody));
    lemma_by_score_len(pool, day);
    lemma_run_counts(rules, start, by_score(pool, day), pre_locked, nobody);
}

/// In the schedule of a pool with distinct ids nobody on the unassigned
/// list holds a slot, and nobody is on the list twice.
pub proof fn lemma_pool_never_both(pool: Seq<EntryView>, day: Day, pre_locked: Set<u8>, locked: Set<u8>)
    requires
        ids_distinct(pool),
    ensures
        forall|i: int|
            0 <= i < pool_schedule(pool, day, pre_locked, locked).unassigned.len() ==> !is_seated(
                pool_schedule(pool, day, pre_locked, locked).appointments,
                #[trigger] pool_schedule(pool, day, pre_locked, locked).unassigned[i],
            ),
        pool_schedule(pool, day, pre_locked, locked).unassigned.no_duplicates(),
{
    let rules = pool_rules(pool, day, locked);
    let start = fresh_start(pre_locked);
    let sorted = by_score(pool, day);
    let nobody = Seq::<EntryView>::empty();
    assert(run_inv(start.board, day, pre_locked, nobody));
    lemma_by_score_distinct(pool, day);
    assert(nobody + sorted =~= sorted);
    lemma_run_never_both(rules, start, sorted, pre_locked, nobody);
}

/// On a plain day the appointments and the unassigned list together
/// number as many as the day's candidates.
pub proof fn law_outcomes_number_the_candidates(
    entries: Seq<EntryView>,
    day: Day,
    pre_locked: Set<u8>,
    locked: Set<u8>,
)
    ensures
        generic_schedule(entries, day, pre_locked, locked).appointments.dom().finite(),
        generic_schedule(entries, day, pre_locked, locked).appointments.dom().len()
            + generic_schedule(entries, day, pre_locked, locked).unassigned.len() == candidates_of(
            entries,
            day,
        ).len(),
{
    lemma_pool_counts(candidates_of(entries, day), day, pre_locked, locked);
}

/// On a plain day, where the entries carry distinct player ids, nobody
/// on the unassigned list holds a slot, and nobody is on the list twice.
pub proof fn law_never_seated_and_left_over(
    entries: Seq<EntryView>,
    day: Day,
    pre_locked: Set<u8>,
    locked: Set<u8>,
)
    requires
        ids_distinct(entries),
    ensures
        forall|i: int|
            0 <= i < generic_schedule(entries, day, pre_locked, locked).unassigned.len()
                ==> !is_seated(
                generic_schedule(entries, day, pre_locked, locked).appointments,
                #[trigger] generic_schedule(entries, day, pre_locked, locked).unassigned[i],
            ),
        generic_schedule(entries, day, pre_locked, locked).unassigned.no_duplicates(),
{
    lemma_candidates_distinct(entries, day);
    lemma_pool_never_both(candidates_of(entries, day), day, pre_locked, locked);
}

/// Leaving a player out shortens the list by the records of that
/// player.
pub proof fn lemma_without_len(pool: Seq<EntryView>, gone: Seq<char>)
    ensures
        without_player(pool, gone).len() + occurrences(pool, gone) == pool.len(),
    decreases pool.len(),
{
    if pool.len() > 0 {
        lemma_without_len(pool.drop_last(), gone);
    }
}

/// The favoured and the others together are as many as the pool.
pub proof fn lemma_select_len(pool: Seq<EntryView>, last: u8)
    ensures
        select_favoured(pool, last, true).len() + select_favoured(pool, last, false).len()
            == pool.len(),
    decreases pool.len(),
{
    if pool.len() > 0 {
        lemma_select_len(pool.drop_last(), last);
    }
}

/// The people of a construction run are as many as the pool, where the
/// pool's ids are distinct.
proof fn lemma_construction_people_len(pool: Seq<EntryView>, pre_locked: Set<u8>, last: u8)
    requires
        ids_distinct(pool),
    ensures
        construction_people(pool, pre_locked, last).len() == pool.len(),
{
    let day = Day::Construction;
    let chosen = select_favoured(pool, last, true);
    let left = select_favoured(pool, last, false);
    let first = by_score(chosen, day);
    let others = by_score(left, day);
    lemma_select_len(pool, last);
    lemma_by_score_len(chosen, day);
    lemma_by_score_len(left, day);
    match last_slot_winner(pool, pre_locked, last) {
        Some(winner) => {
            let id = winner.player_id;
            let rest = without_player(first, id);
            lemma_by_score_len(rest + others, day);
            lemma_without_len(first, id);
            lemma_occurrences_found(first, 0, id);
            lemma_occurrences_by_score(chosen, day, id);
            lemma_occurrences_select(pool, last, id);
            lemma_distinct_counts(pool, id);
        },
        None => {
            lemma_by_score_len(first + others, day);
        },
    }
}

/// On construction day, where the entries carry distinct player ids, the
/// appointments and the unassigned list together number as many as the
/// day's candidates, nobody on the unassigned list holds a slot, and
/// nobody is on the list twice.
pub proof fn law_construction_everyone_once(
    entries: Seq<EntryView>,
    pre_locked: Set<u8>,
    last_slot: Option<u8>,
)
    requires
        ids_distinct(entries),
    ensures
        construction_schedule(entries, pre_locked, last_slot).appointments.dom().finite(),
        construction_schedule(entries, pre_locked, last_slot).appointments.dom().len()
            + construction_schedule(entries, pre_locked, last_slot).unassigned.len()
            == candidates_of(entries, Day::Construction).len(),
        forall|i: int|
            0 <= i < construction_schedule(entries, pre_locked, last_slot).unassigned.len()
                ==> !is_seated(
                construction_schedule(entries, pre_locked, last_slot).appointments,
                #[trigger] construction_schedule(entries, pre_locked, last_slot).unassigned[i],
            ),
        construction_schedule(entries, pre_locked, last_slot).unassigned.no_duplicates(),
{
    let day = Day::Construction;
    let pool = candidates_of(entries, day);
    let last = chosen_last_slot(pool, last_slot);
    let rules = construction_rules(pool, last);
    let start = construction_start(pool, pre_locked, last);
    let queue = construction_queue(pool, pre_locked, last);
    let nobody = Seq::<EntryView>::empty();
    let fresh = fresh_start(pre_locked);
    lemma_candidates_distinct(entries, day);
    lemma_construction_people_distinct(pool, pre_locked, last);
    lemma_construction_people_len(pool, pre_locked, last);
    assert(run_inv(fresh.board, day, pre_locked, nobody));
    match last_slot_winner(pool, pre_locked, last) {
        Some(winner) => {
            lemma_place_keeps_shape(fresh.board, day, winner, last, pre_locked, nobody);
            assert(nobody.push(winner) =~= seq![winner]);
            assert(start.board.seats.dom() =~= Set::<u8>::empty().insert(last));
            lemma_run_counts(rules, start, queue, pre_locked, seq![winner]);
            lemma_run_never_both(rules, start, queue, pre_locked, seq![winner]);
        },
        None => {
            assert(nobody + queue =~= queue);
            lemma_run_counts(rules, start, queue, pre_locked, nobody);
            lemma_run_never_both(rules, start, queue, pre_locked, nobody);
        },
    }
}

/// On research day, where the entries carry distinct player ids, the
/// appointments and the unassigned list together number as many as the
/// day's candidates, nobody on the unassigned list holds a slot, and
/// nobody is on the list twice.
pub proof fn law_research_everyone_once(
    entries: Seq<EntryView>,
    construction: Map<u8, AppointmentView>,
    pre_locked: Set<u8>,
)
    requires
        ids_distinct(entries),
    ensures
        research_schedule(entries, construction, pre_locked).appointments.dom().finite(),
        research_schedule(entries, construction, pre_locked).appointments.dom().len()
            + research_schedule(entries, construction, pre_locked).unassigned.len()
            == candidates_of(entries, Day::Research).len(),
        forall|i: int|
            0 <= i < research_schedule(entries, construction, pre_locked).unassigned.len()
                ==> !is_seated(
                research_schedule(entries, construction, pre_locked).appointments,
                #[trigger] research_schedule(entries, construction, pre_locked).unassigned[i],
            ),
        research_schedule(entries, construction, pre_locked).unassigned.no_duplicates(),
{
    let day = Day::Research;
    let pool = candidates_of(entries, day);
    let result = research_schedule(entries, construction, pre_locked);
    lemma_candidates_distinct(entries, day);
    match handoff(entries, construction, pre_locked) {
        Some(k) => {
            lemma_handoff(entries, construction, pre_locked);
            let holder = entries[k].player_id;
            let others = without_player(pool, holder);
            let closed = pre_locked.insert(HANDOFF_SLOT);
            let rest = pool_schedule(others, day, closed, set![HANDOFF_SLOT]);
            assert forall|id: Seq<char>| #[trigger] occurrences(others, id) <= 1 by {
                lemma_distinct_counts(pool, id);
                lemma_occurrences_without(pool, holder, id);
            }
            lemma_counts_distinct(others);
            lemma_pool_counts(others, day, closed, set![HANDOFF_SLOT]);
            lemma_pool_never_both(others, day, closed, set![HANDOFF_SLOT]);
            lemma_pool_schedule_laws(others, day, closed, set![HANDOFF_SLOT]);
            // The player handed over is in the pool exactly once.
            lemma_candidate_listed(entries, day, k);
            let j = choose|j: int| 0 <= j < pool.len() && #[trigger] pool[j] == entries[k];
            lemma_occurrences_found(pool, j, holder);
            lemma_distinct_counts(pool, holder);
            lemma_without_len(pool, holder);
            assert(closed.contains(HANDOFF_SLOT));
            assert(!rest.appointments.dom().contains(HANDOFF_SLOT));
            assert(result.appointments.dom() =~= rest.appointments.dom().insert(HANDOFF_SLOT));
            assert forall|i: int| 0 <= i < result.unassigned.len() implies !is_seated(
                result.appointments,
                #[trigger] result.unassigned[i],
            ) by {
                let u = result.unassigned[i];
                assert(!is_seated(rest.appointments, rest.unassigned[i]));
                let w = choose|w: int|
                    0 <= w < others.len() && (#[trigger] others[w]).player_id == rest.unassigned[i];
                lemma_without_player(pool, holder, w);
                if is_seated(result.appointments, u) {
                    let t = choose|t: u8| #[trigger]
                        result.appointments.contains_key(t) && result.appointments[t].player_id
                            == u;
                    assert(t != HANDOFF_SLOT);
                    assert(rest.appointments.contains_key(t) && rest.appointments[t].player_id
                        == u);
                }
            }
        },
        None => {
            let locked = if pre_locked.contains(HANDOFF_SLOT) {
                set![HANDOFF_SLOT]
            } else {
                Set::empty()
            };
            lemma_pool_counts(pool, day, pre_locked, locked);
            lemma_pool_never_both(pool, day, pre_locked, locked);
        },
    }
}

/// Where every entry's player is scheduled already, no entry is left to
/// schedule.
pub proof fn lemma_all_scheduled(entries: Seq<EntryView>, scheduled: Seq<Seq<char>>)
    requires
        forall|k: int| 0 <= k < entries.len() ==> scheduled.contains((#[trigger] entries[k]).player_id),
    ensures
        unscheduled(entries, scheduled).len() == 0,
    decreases entries.len(),
{
    if entries.len() > 0 {
        let init = entries.drop_last();
        assert forall|k: int| 0 <= k < init.len() implies scheduled.contains(
            (#[trigger] init[k]).player_id,
        ) by {
            assert(init[k] == entries[k]);
        }
        lemma_all_scheduled(init, scheduled);
        assert(scheduled.contains(entries[entries.len() - 1].player_id));
    }
}

/// Without entries every day's schedule is empty.
pub proof fn lemma_no_entries(
    entries: Seq<EntryView>,
    day: Day,
    construction: Map<u8, AppointmentView>,
    pre_locked: Set<u8>,
    locked: Set<u8>,
    last_slot: Option<u8>,
)
    requires
        entries.len() == 0,
    ensures
        generic_schedule(entries, day, pre_locked, locked).appointments == Map::<
            u8,
            AppointmentView,
        >::empty(),
        generic_schedule(entries, day, pre_locked, locked).unassigned.len() == 0,
        construction_schedule(entries, pre_locked, last_slot).appointments == Map::<
            u8,
            AppointmentView,
        >::empty(),
        construction_schedule(entries, pre_locked, last_slot).unassigned.len() == 0,
        research_schedule(entries, construction, pre_locked).appointments == Map::<
            u8,
            AppointmentView,
        >::empty(),
        research_schedule(entries, construction, pre_locked).unassigned.len() == 0,
{
    let nobody = Seq::<EntryView>::empty();
    assert(candidates_of(entries, day) =~= nobody);
    assert(candidates_of(entries, Day::Construction) =~= nobody);
    assert(candidates_of(entries, Day::Research) =~= nobody);
    lemma_by_score_len(nobody, day);
    lemma_by_score_len(nobody, Day::Construction);
    lemma_by_score_len(nobody, Day::Research);
    let last = chosen_last_slot(nobody, last_slot);
    assert(select_favoured(nobody, last, true) =~= nobody);
    assert(select_favoured(nobody, last, false) =~= nobody);
    assert(nobody + nobody =~= nobody);
    assert(last_slot_winner(nobody, pre_locked, last).is_none());
    assert(construction_queue(nobody, pre_locked, last).len() == 0);
    assert(handoff(entries, construction, pre_locked).is_none());
}

/// Adding a run for entries whose players are all scheduled already
/// changes nothing: the run seats nobody and leaves nobody over, and the
/// earlier appointments come out of the merge as they went in.
pub proof fn law_append_of_nobody(
    entries: Seq<EntryView>,
    scheduled: Seq<Seq<char>>,
    day: Day,
    earlier: Map<u8, AppointmentView>,
    construction: Map<u8, AppointmentView>,
    pre_locked: Set<u8>,
    locked: Set<u8>,
    last_slot: Option<u8>,
)
    requires
        forall|k: int| 0 <= k < entries.len() ==> scheduled.contains((#[trigger] entries[k]).player_id),
    ensures
        merged_appointments(
            earlier,
            generic_schedule(unscheduled(entries, scheduled), day, pre_locked, locked).appointments,
        ) == earlier,
        generic_schedule(unscheduled(entries, scheduled), day, pre_locked, locked).unassigned.len()
            == 0,
        merged_appointments(
            earlier,
            construction_schedule(
                unscheduled(entries, scheduled),
                pre_locked,
                last_slot,
            ).appointments,
        ) == earlier,
        construction_schedule(unscheduled(entries, scheduled), pre_locked, last_slot).unassigned.len()
            == 0,
        merged_appointments(
            earlier,
            research_schedule(
                unscheduled(entries, scheduled),
                construction,
                pre_locked,
            ).appointments,
        ) == earlier,
        research_schedule(unscheduled(entries, scheduled), construction, pre_locked).unassigned.len()
            == 0,
{
    let rest = unscheduled(entries, scheduled);
    lemma_all_scheduled(entries, scheduled);
    lemma_no_entries(rest, day, construction, pre_locked, locked, last_slot);
    assert(merged_appointments(earlier, Map::<u8, AppointmentView>::empty()) =~= earlier);
}

} // verus!
