//! What holds of every schedule the day assigner produces.

use vstd::prelude::*;
use crate::parser::EntryView;
use super::census::{
    ids_distinct, lemma_counts_distinct, lemma_distinct_counts, lemma_occurrences_by_score,
    lemma_occurrences_concat, lemma_occurrences_found, lemma_occurrences_push,
    lemma_occurrences_select, lemma_occurrences_without, occurrences,
};
use super::construction::{
    chosen_last_slot, construction_queue, construction_rules, construction_schedule,
    construction_start, last_slot_winner, select_favoured,
};
use super::generic::{
    by_score, candidates_of, chosen_slot, combined_score, first_steal_from, first_untaken_from,
    fresh_start, generic_schedule, highest_key, holder_of, is_blocked, place, pool_rules,
    pool_schedule, ranked_slots, run_spec, score_keys, seat_candidate_spec, space_of, steal_chain,
    steal_order, without_player, MAX_CHAIN_DEPTH, DayRules, RunState,
};
use crate::parser::{first_entry_from, lemma_first_entry};
use super::research::{accepts_handoff, handoff, research_schedule, HANDOFF_SLOT};
use super::move_chain::{
    apply_chain, board_tidy, chain_fits, lemma_apply_fitting_chain, lemma_chain_search,
    lemma_sound_chain_fits, players_distinct, relocated,
};
use super::ordering::{lemma_sorted_by_keys, stable_order};
use super::types::{AppointmentView, Board, Day, DaySchedule};

verus! {

/// Every appointment seats one of `people`.
pub open spec fn seated_from(seats: Map<u8, AppointmentView>, day: Day, people: Seq<EntryView>) -> bool {
    forall|s: u8| #[trigger]
        seats.contains_key(s) ==> exists|k: int|
            0 <= k < people.len() && seats[s] == day.seat_spec(#[trigger] people[k], s)
}

/// The shape a board keeps throughout a run: it is tidy, the slots closed
/// from the outset stay taken and empty, everybody seated is one of
/// `people`, and nobody sits twice unless two of `people` share an id.
pub open spec fn run_inv(b: Board, day: Day, pre_locked: Set<u8>, people: Seq<EntryView>) -> bool {
    &&& board_tidy(b)
    &&& forall|s: u8| pre_locked.contains(s) ==> b.used.contains(s) && !b.seats.contains_key(s)
    &&& seated_from(b.seats, day, people)
    &&& ids_distinct(people) ==> players_distinct(b.seats)
}

/// The first free slot of a list is on the list and free.
pub proof fn lemma_first_untaken(slots: Seq<u8>, i: int, used: Set<u8>)
    ensures
        match first_untaken_from(slots, i, used) {
            Some(slot) => !used.contains(slot) && slots.contains(slot),
            None => true,
        },
    decreases slots.len() - i,
{
    if 0 <= i < slots.len() && used.contains(slots[i]) {
        lemma_first_untaken(slots, i + 1, used);
    }
}

/// The first slot that can be taken over is on the list and can be taken
/// over.
pub proof fn lemma_first_steal(rules: DayRules, b: Board, c: EntryView, order: Seq<u8>, i: int)
    ensures
        match first_steal_from(rules, b, c, order, i) {
            Some(k) => 0 <= k < order.len() && steal_chain(rules, b, c, order[k]).is_some(),
            None => true,
        },
    decreases order.len() - i,
{
    if 0 <= i < order.len() && steal_chain(rules, b, c, order[i]).is_none() {
        lemma_first_steal(rules, b, c, order, i + 1);
    }
}

/// Every chain the assigner commits fits the board, has at most
/// [`MAX_CHAIN_DEPTH`] moves, relocates nobody twice and moves nobody out
/// of a locked slot.
pub proof fn lemma_steal_chain(rules: DayRules, b: Board, c: EntryView, slot: u8)
    requires
        steal_chain(rules, b, c, slot).is_some(),
    ensures
        b.seats.contains_key(slot),
        chain_fits(b, steal_chain(rules, b, c, slot).unwrap()),
        steal_chain(rules, b, c, slot).unwrap()[0].from_slot == slot,
        1 <= steal_chain(rules, b, c, slot).unwrap().len() <= MAX_CHAIN_DEPTH,
        forall|i: int, j: int|
            0 <= i < j < steal_chain(rules, b, c, slot).unwrap().len() ==> (
            #[trigger] steal_chain(rules, b, c, slot).unwrap()[i]).player_id != (
            #[trigger] steal_chain(rules, b, c, slot).unwrap()[j]).player_id,
        forall|i: int|
            0 <= i < steal_chain(rules, b, c, slot).unwrap().len() ==> !rules.locked.contains(
                (#[trigger] steal_chain(rules, b, c, slot).unwrap()[i]).from_slot,
            ),
{
    let sp = space_of(rules, b);
    let holder = b.seats[slot].player_id;
    let slots = rules.day.slots_spec(holder_of(rules.roster, b.seats, slot));
    let visited = seq![holder];
    let chain = steal_chain(rules, b, c, slot).unwrap();
    lemma_chain_search(sp, holder, slot, slots, 1, visited);
    assert(visited[0] == holder);
    lemma_sound_chain_fits(sp, holder, slot, 1, visited, chain);
    assert(Board { seats: sp.seats, used: sp.used } == b);
}

/// Seating one more candidate keeps the shape of the board.
pub proof fn lemma_seat_keeps_shape(
    rules: DayRules,
    b: Board,
    c: EntryView,
    pre_locked: Set<u8>,
    people: Seq<EntryView>,
)
    requires
        run_inv(b, rules.day, pre_locked, people),
    ensures
        run_inv(seat_candidate_spec(rules, b, c).board, rules.day, pre_locked, people.push(c)),
{
    let day = rules.day;
    let more = people.push(c);
    let ranked = ranked_slots(day.slots_spec(c), rules.rankings);
    let after = seat_candidate_spec(rules, b, c).board;
    assert forall|k: int| 0 <= k < people.len() implies #[trigger] more[k] == people[k] by {}
    assert(more[people.len() as int] == c);
    if ids_distinct(more) {
        assert forall|i: int, j: int| 0 <= i < j < people.len() implies (
        #[trigger] people[i]).player_id != (#[trigger] people[j]).player_id by {
            assert(more[i].player_id != more[j].player_id);
        }
        assert forall|k: int| 0 <= k < people.len() implies (#[trigger] people[k]).player_id
            != c.player_id by {
            assert(more[k].player_id != more[people.len() as int].player_id);
        }
    }
    lemma_first_untaken(ranked, 0, b.used);
    match first_untaken_from(ranked, 0, b.used) {
        Some(slot) => {
            lemma_place_keeps_shape(b, day, c, slot, pre_locked, people);
        },
        None => {
            let order = steal_order(rules.roster, b.seats, ranked);
            lemma_first_steal(rules, b, c, order, 0);
            match first_steal_from(rules, b, c, order, 0) {
                Some(i) => {
                    let slot = order[i];
                    let chain = steal_chain(rules, b, c, slot).unwrap();
                    lemma_steal_chain(rules, b, c, slot);
                    lemma_apply_fitting_chain(b, chain);
                    let moved = apply_chain(b, chain);
                    assert(b.used.contains(slot));
                    assert forall|s: u8| pre_locked.contains(s) implies moved.used.contains(s)
                        && !moved.seats.contains_key(s) by {
                        assert(s != slot);
                        assert(s != chain.last().to_slot);
                        assert(!b.seats.dom().contains(s));
                    }
                    assert forall|t: u8| #[trigger] moved.seats.contains_key(t) implies exists|
                        k: int,
                    |
                        0 <= k < people.len() && moved.seats[t] == day.seat_spec(
                            #[trigger] people[k],
                            t,
                        ) by {
                        let s = choose|s: u8| #[trigger]
                            b.seats.contains_key(s) && moved.seats[t] == relocated(b.seats[s], t);
                        let k = choose|k: int|
                            0 <= k < people.len() && b.seats[s] == day.seat_spec(
                                #[trigger] people[k],
                                s,
                            );
                        assert(moved.seats[t] == day.seat_spec(people[k], t));
                    }
                    assert(run_inv(moved, day, pre_locked, people));
                    lemma_place_keeps_shape(moved, day, c, slot, pre_locked, people);
                },
                None => {
                    lemma_more_people(b, day, pre_locked, people, c);
                },
            }
        },
    }
}

/// The shape of a board does not depend on how many people could have been
/// seated.
pub proof fn lemma_more_people(b: Board, day: Day, pre_locked: Set<u8>, people: Seq<EntryView>, c: EntryView)
    requires
        run_inv(b, day, pre_locked, people),
    ensures
        run_inv(b, day, pre_locked, people.push(c)),
{
    let more = people.push(c);
    assert forall|s: u8| #[trigger] b.seats.contains_key(s) implies exists|k: int|
        0 <= k < more.len() && b.seats[s] == day.seat_spec(#[trigger] more[k], s) by {
        let k = choose|k: int|
            0 <= k < people.len() && b.seats[s] == day.seat_spec(#[trigger] people[k], s);
        assert(more[k] == people[k]);
    }
    if ids_distinct(more) {
        assert forall|i: int, j: int| 0 <= i < j < people.len() implies (
        #[trigger] people[i]).player_id != (#[trigger] people[j]).player_id by {
            assert(more[i].player_id != more[j].player_id);
        }
    }
}

/// Seating a candidate in a free slot keeps the shape of the board.
pub proof fn lemma_place_keeps_shape(
    b: Board,
    day: Day,
    c: EntryView,
    slot: u8,
    pre_locked: Set<u8>,
    people: Seq<EntryView>,
)
    requires
        run_inv(b, day, pre_locked, people),
        !b.used.contains(slot),
    ensures
        run_inv(place(b, day, c, slot), day, pre_locked, people.push(c)),
{
    let more = people.push(c);
    let after = place(b, day, c, slot);
    lemma_more_people(b, day, pre_locked, people, c);
    assert forall|s: u8| #[trigger] after.seats.contains_key(s) implies exists|k: int|
        0 <= k < more.len() && after.seats[s] == day.seat_spec(#[trigger] more[k], s) by {
        if s == slot {
            assert(more[people.len() as int] == c);
        } else {
            let k = choose|k: int|
                0 <= k < more.len() && b.seats[s] == day.seat_spec(#[trigger] more[k], s);
            assert(after.seats[s] == day.seat_spec(more[k], s));
        }
    }
    if ids_distinct(more) {
        assert forall|s: u8, t: u8|
            after.seats.contains_key(s) && after.seats.contains_key(t) && s != t implies (
        #[trigger] after.seats[s]).player_id != (#[trigger] after.seats[t]).player_id by {
            if s == slot || t == slot {
                let other = if s == slot { t } else { s };
                let k = choose|k: int|
                    0 <= k < people.len() && b.seats[other] == day.seat_spec(
                        #[trigger] people[k],
                        other,
                    );
                assert(more[k] == people[k]);
                assert(more[people.len() as int] == c);
                assert(more[k].player_id != more[people.len() as int].player_id);
            }
        }
    }
}

/// Seating a queue of candidates keeps the shape of the board.
pub proof fn lemma_run_keeps_shape(
    rules: DayRules,
    start: RunState,
    queue: Seq<EntryView>,
    pre_locked: Set<u8>,
    people: Seq<EntryView>,
)
    requires
        run_inv(start.board, rules.day, pre_locked, people),
    ensures
        run_inv(run_spec(rules, start, queue).board, rules.day, pre_locked, people + queue),
    decreases queue.len(),
{
    if queue.len() == 0 {
        assert(people + queue =~= people);
    } else {
        let init = queue.drop_last();
        lemma_run_keeps_shape(rules, start, init, pre_locked, people);
        let prev = run_spec(rules, start, init);
        lemma_seat_keeps_shape(rules, prev.board, queue.last(), pre_locked, people + init);
        assert((people + init).push(queue.last()) =~= people + queue);
    }
}

/// Ranking by score rearranges the candidates and neither adds nor merges
/// ids.
pub proof fn lemma_by_score_distinct(pool: Seq<EntryView>, day: Day)
    requires
        ids_distinct(pool),
    ensures
        ids_distinct(by_score(pool, day)),
        by_score(pool, day).len() == pool.len(),
{
    let keys = score_keys(pool, day);
    lemma_sorted_by_keys(pool, keys, true);
    let order = stable_order(keys, true);
    let sorted = by_score(pool, day);
    assert forall|i: int, j: int| 0 <= i < j < sorted.len() implies (#[trigger] sorted[i]).player_id
        != (#[trigger] sorted[j]).player_id by {
        assert(sorted[i] == pool[order[i]]);
        assert(sorted[j] == pool[order[j]]);
        assert(order[i] != order[j]);
        if order[i] < order[j] {
            assert(pool[order[i]].player_id != pool[order[j]].player_id);
        } else {
            assert(pool[order[j]].player_id != pool[order[i]].player_id);
        }
    }
}

/// Selecting the day's candidates keeps the ids distinct.
pub proof fn lemma_candidates_distinct(entries: Seq<EntryView>, day: Day)
    requires
        ids_distinct(entries),
    ensures
        ids_distinct(candidates_of(entries, day)),
        forall|i: int|
            0 <= i < candidates_of(entries, day).len() ==> exists|j: int|
                0 <= j < entries.len() && entries[j] == #[trigger] candidates_of(entries, day)[i],
    decreases entries.len(),
{
    if entries.len() > 0 {
        let init = entries.drop_last();
        assert forall|i: int, j: int| 0 <= i < j < init.len() implies (#[trigger] init[i]).player_id
            != (#[trigger] init[j]).player_id by {
            assert(entries[i].player_id != entries[j].player_id);
        }
        lemma_candidates_distinct(init, day);
        let sub = candidates_of(init, day);
        let all = candidates_of(entries, day);
        assert forall|i: int| 0 <= i < all.len() implies exists|j: int|
            0 <= j < entries.len() && entries[j] == #[trigger] all[i] by {
            if i < sub.len() {
                let j = choose|j: int| 0 <= j < init.len() && init[j] == sub[i];
                assert(entries[j] == all[i]);
            } else {
                assert(entries[entries.len() - 1] == all[i]);
            }
        }
        assert forall|a: int, b: int| 0 <= a < b < all.len() implies (#[trigger] all[a]).player_id
            != (#[trigger] all[b]).player_id by {
            if b < sub.len() {
                assert(sub[a].player_id != sub[b].player_id);
            } else {
                let j = choose|j: int| 0 <= j < init.len() && init[j] == sub[a];
                assert(entries[j].player_id != entries[entries.len() - 1].player_id);
            }
        }
    }
}

/// Every appointment is filed under the slot it records.
pub open spec fn slots_recorded(appointments: Map<u8, AppointmentView>) -> bool {
    forall|s: u8| appointments.contains_key(s) ==> (#[trigger] appointments[s]).slot == s
}

/// No slot of `closed` holds an appointment.
pub open spec fn closed_stay_empty(appointments: Map<u8, AppointmentView>, closed: Set<u8>) -> bool {
    forall|s: u8| closed.contains(s) ==> !appointments.contains_key(s)
}

/// Every id on the unassigned list is the id of one of `people`.
pub open spec fn unassigned_from(unassigned: Seq<Seq<char>>, people: Seq<EntryView>) -> bool {
    forall|i: int|
        0 <= i < unassigned.len() ==> exists|k: int|
            0 <= k < people.len() && (#[trigger] people[k]).player_id == #[trigger] unassigned[i]
}

/// Only candidates of the queue are added to the unassigned list.
pub proof fn lemma_run_unassigned(
    rules: DayRules,
    start: RunState,
    queue: Seq<EntryView>,
    people: Seq<EntryView>,
)
    requires
        unassigned_from(start.unassigned, people),
    ensures
        unassigned_from(run_spec(rules, start, queue).unassigned, people + queue),
    decreases queue.len(),
{
    let all = people + queue;
    let end = run_spec(rules, start, queue).unassigned;
    if queue.len() == 0 {
        assert(all =~= people);
    } else {
        let init = queue.drop_last();
        lemma_run_unassigned(rules, start, init, people);
        let prev = run_spec(rules, start, init).unassigned;
        assert forall|i: int| 0 <= i < end.len() implies exists|k: int|
            0 <= k < all.len() && (#[trigger] all[k]).player_id == #[trigger] end[i] by {
            if i < prev.len() {
                assert(end[i] == prev[i]);
                let k = choose|k: int|
                    0 <= k < (people + init).len() && (#[trigger] (people + init)[k]).player_id
                        == prev[i];
                assert(all[k] == (people + init)[k]);
            } else {
                assert(all[all.len() - 1] == queue.last());
            }
        }
    }
}

/// The schedule of a pool keeps the shape of a run.
pub proof fn lemma_pool_schedule_shape(
    pool: Seq<EntryView>,
    day: Day,
    pre_locked: Set<u8>,
    locked: Set<u8>,
)
    ensures
        run_inv(
            run_spec(pool_rules(pool, day, locked), fresh_start(pre_locked), by_score(pool, day)).board,
            day,
            pre_locked,
            by_score(pool, day),
        ),
{
    let rules = pool_rules(pool, day, locked);
    let start = fresh_start(pre_locked);
    let nobody = Seq::<EntryView>::empty();
    assert(run_inv(start.board, day, pre_locked, nobody));
    lemma_run_keeps_shape(rules, start, by_score(pool, day), pre_locked, nobody);
    assert(nobody + by_score(pool, day) =~= by_score(pool, day));
}

/// What holds of the schedule of any pool: appointments are filed under
/// their slots, closed slots stay empty, everybody seated or left over is a
/// member of the pool, and no player sits twice where the pool's ids are
/// distinct.
pub proof fn lemma_pool_schedule_laws(
    pool: Seq<EntryView>,
    day: Day,
    pre_locked: Set<u8>,
    locked: Set<u8>,
)
    ensures
        slots_recorded(pool_schedule(pool, day, pre_locked, locked).appointments),
        closed_stay_empty(pool_schedule(pool, day, pre_locked, locked).appointments, pre_locked),
        seated_from(pool_schedule(pool, day, pre_locked, locked).appointments, day, pool),
        unassigned_from(pool_schedule(pool, day, pre_locked, locked).unassigned, pool),
        ids_distinct(pool) ==> players_distinct(
            pool_schedule(pool, day, pre_locked, locked).appointments,
        ),
{
    let sorted = by_score(pool, day);
    let result = pool_schedule(pool, day, pre_locked, locked);
    let seats = result.appointments;
    lemma_pool_schedule_shape(pool, day, pre_locked, locked);
    lemma_sorted_by_keys(pool, score_keys(pool, day), true);
    let order = stable_order(score_keys(pool, day), true);
    assert forall|s: u8| #[trigger] seats.contains_key(s) implies exists|k: int|
        0 <= k < pool.len() && seats[s] == day.seat_spec(#[trigger] pool[k], s) by {
        let k = choose|k: int|
            0 <= k < sorted.len() && seats[s] == day.seat_spec(#[trigger] sorted[k], s);
        assert(sorted[k] == pool[order[k]]);
    }
    let nobody = Seq::<EntryView>::empty();
    lemma_run_unassigned(pool_rules(pool, day, locked), fresh_start(pre_locked), sorted, nobody);
    assert(nobody + sorted =~= sorted);
    assert forall|i: int| 0 <= i < result.unassigned.len() implies exists|k: int|
        0 <= k < pool.len() && (#[trigger] pool[k]).player_id == #[trigger] result.unassigned[i] by {
        let k = choose|k: int|
            0 <= k < sorted.len() && (#[trigger] sorted[k]).player_id == result.unassigned[i];
        assert(sorted[k] == pool[order[k]]);
    }
    if ids_distinct(pool) {
        lemma_by_score_distinct(pool, day);
    }
}

/// On a plain day every appointment is filed under the slot it records, and
/// where the entries carry distinct player ids no player holds two slots.
pub proof fn law_no_double_booking(
    entries: Seq<EntryView>,
    day: Day,
    pre_locked: Set<u8>,
    locked: Set<u8>,
)
    ensures
        slots_recorded(generic_schedule(entries, day, pre_locked, locked).appointments),
        ids_distinct(entries) ==> players_distinct(
            generic_schedule(entries, day, pre_locked, locked).appointments,
        ),
{
    let pool = candidates_of(entries, day);
    lemma_pool_schedule_laws(pool, day, pre_locked, locked);
    if ids_distinct(entries) {
        lemma_candidates_distinct(entries, day);
    }
}

/// On a plain day a slot that was closed from the outset receives nobody.
pub proof fn law_pre_locked_stay_empty(
    entries: Seq<EntryView>,
    day: Day,
    pre_locked: Set<u8>,
    locked: Set<u8>,
)
    ensures
        closed_stay_empty(
            generic_schedule(entries, day, pre_locked, locked).appointments,
            pre_locked,
        ),
{
    lemma_pool_schedule_laws(candidates_of(entries, day), day, pre_locked, locked);
}

/// Everybody in the schedule of a plain day is one of the day's candidates,
/// seated with their own name, alliance and score.
pub proof fn law_seated_are_candidates(
    entries: Seq<EntryView>,
    day: Day,
    pre_locked: Set<u8>,
    locked: Set<u8>,
)
    ensures
        seated_from(
            generic_schedule(entries, day, pre_locked, locked).appointments,
            day,
            candidates_of(entries, day),
        ),
{
    lemma_pool_schedule_laws(candidates_of(entries, day), day, pre_locked, locked);
}

/// The people of a construction run: the winner of the last slot, if any,
/// and behind them the queue.
pub open spec fn construction_people(pool: Seq<EntryView>, pre_locked: Set<u8>, last: u8) -> Seq<
    EntryView,
> {
    match last_slot_winner(pool, pre_locked, last) {
        Some(winner) => seq![winner] + construction_queue(pool, pre_locked, last),
        None => construction_queue(pool, pre_locked, last),
    }
}

/// Nobody enters a construction run twice.
pub proof fn lemma_construction_people_distinct(pool: Seq<EntryView>, pre_locked: Set<u8>, last: u8)
    requires
        ids_distinct(pool),
    ensures
        ids_distinct(construction_people(pool, pre_locked, last)),
{
    let day = Day::Construction;
    let chosen = select_favoured(pool, last, true);
    let left = select_favoured(pool, last, false);
    let first = by_score(chosen, day);
    let others = by_score(left, day);
    let people = construction_people(pool, pre_locked, last);
    let queue = construction_queue(pool, pre_locked, last);
    assert forall|id: Seq<char>| #[trigger] occurrences(people, id) <= 1 by {
        lemma_distinct_counts(pool, id);
        lemma_occurrences_select(pool, last, id);
        lemma_occurrences_by_score(chosen, day, id);
        lemma_occurrences_by_score(left, day, id);
        match last_slot_winner(pool, pre_locked, last) {
            Some(winner) => {
                let rest = without_player(first, winner.player_id);
                lemma_occurrences_by_score(rest + others, day, id);
                lemma_occurrences_concat(rest, others, id);
                lemma_occurrences_without(first, winner.player_id, id);
                lemma_occurrences_concat(seq![winner], queue, id);
                assert(seq![winner] =~= Seq::<EntryView>::empty().push(winner));
                lemma_occurrences_push(Seq::<EntryView>::empty(), winner, id);
                if id == winner.player_id {
                    lemma_occurrences_found(first, 0, id);
                }
            },
            None => {
                lemma_occurrences_by_score(first + others, day, id);
                lemma_occurrences_concat(first, others, id);
            },
        }
    }
    lemma_counts_distinct(people);
}

/// The construction schedule keeps the shape of a run.
pub proof fn lemma_construction_shape(pool: Seq<EntryView>, pre_locked: Set<u8>, last: u8)
    ensures
        run_inv(
            run_spec(
                construction_rules(pool, last),
                construction_start(pool, pre_locked, last),
                construction_queue(pool, pre_locked, last),
            ).board,
            Day::Construction,
            pre_locked,
            construction_people(pool, pre_locked, last),
        ),
{
    let day = Day::Construction;
    let rules = construction_rules(pool, last);
    let start = construction_start(pool, pre_locked, last);
    let queue = construction_queue(pool, pre_locked, last);
    let nobody = Seq::<EntryView>::empty();
    let fresh = fresh_start(pre_locked);
    assert(run_inv(fresh.board, day, pre_locked, nobody));
    match last_slot_winner(pool, pre_locked, last) {
        Some(winner) => {
            lemma_place_keeps_shape(fresh.board, day, winner, last, pre_locked, nobody);
            assert(nobody.push(winner) =~= seq![winner]);
            lemma_run_keeps_shape(rules, start, queue, pre_locked, seq![winner]);
        },
        None => {
            lemma_run_keeps_shape(rules, start, queue, pre_locked, nobody);
            assert(nobody + queue =~= queue);
        },
    }
}

/// On construction day every appointment is filed under the slot it
/// records, and where the entries carry distinct player ids no player holds
/// two slots.
pub proof fn law_construction_no_double_booking(
    entries: Seq<EntryView>,
    pre_locked: Set<u8>,
    last_slot: Option<u8>,
)
    ensures
        slots_recorded(construction_schedule(entries, pre_locked, last_slot).appointments),
        ids_distinct(entries) ==> players_distinct(
            construction_schedule(entries, pre_locked, last_slot).appointments,
        ),
{
    let pool = candidates_of(entries, Day::Construction);
    let last = chosen_last_slot(pool, last_slot);
    lemma_construction_shape(pool, pre_locked, last);
    if ids_distinct(entries) {
        lemma_candidates_distinct(entries, Day::Construction);
        lemma_construction_people_distinct(pool, pre_locked, last);
    }
}

/// On construction day a slot that was closed from the outset receives
/// nobody.
pub proof fn law_construction_pre_locked_stay_empty(
    entries: Seq<EntryView>,
    pre_locked: Set<u8>,
    last_slot: Option<u8>,
)
    ensures
        closed_stay_empty(
            construction_schedule(entries, pre_locked, last_slot).appointments,
            pre_locked,
        ),
{
    let pool = candidates_of(entries, Day::Construction);
    lemma_construction_shape(pool, pre_locked, chosen_last_slot(pool, last_slot));
}

/// A candidate who gets the gated slot while somebody holds it has a
/// strictly higher combined score than that holder.
pub proof fn law_gated_slot_needs_higher_score(rules: DayRules, b: Board, c: EntryView, gated: u8)
    requires
        board_tidy(b),
        rules.gate == Some(gated),
        b.seats.contains_key(gated),
        chosen_slot(rules, b, c) == Some(gated),
    ensures
        is_blocked(rules.roster, b.seats, gated),
        combined_score(c) > combined_score(holder_of(rules.roster, b.seats, gated)),
{
    let ranked = ranked_slots(rules.day.slots_spec(c), rules.rankings);
    lemma_first_untaken(ranked, 0, b.used);
    assert(first_untaken_from(ranked, 0, b.used).is_none());
    let order = steal_order(rules.roster, b.seats, ranked);
    lemma_first_steal(rules, b, c, order, 0);
}

/// Nobody whom `without_player` keeps carries the id it leaves out.
pub proof fn lemma_without_player(pool: Seq<EntryView>, gone: Seq<char>, i: int)
    requires
        0 <= i < without_player(pool, gone).len(),
    ensures
        without_player(pool, gone)[i].player_id != gone,
{
    if without_player(pool, gone)[i].player_id == gone {
        lemma_occurrences_found(without_player(pool, gone), i, gone);
        lemma_occurrences_without(pool, gone, gone);
    }
}

/// Where the holder of construction's highest occupied slot has an entry
/// that asks for research and accepts its first slot, and that slot is not
/// closed, the holder sits in research's first slot and appears nowhere
/// else in the research schedule.
pub proof fn law_cross_day_link(
    entries: Seq<EntryView>,
    construction: Map<u8, AppointmentView>,
    pre_locked: Set<u8>,
    top: u8,
    k: int,
)
    requires
        highest_key(construction) == Some(top),
        first_entry_from(entries, 0, construction[top].player_id) == Some(k),
        accepts_handoff(entries[k]),
        !pre_locked.contains(HANDOFF_SLOT),
    ensures
        research_schedule(entries, construction, pre_locked).appointments.contains_key(
            HANDOFF_SLOT,
        ),
        research_schedule(entries, construction, pre_locked).appointments[HANDOFF_SLOT]
            == Day::Research.seat_spec(entries[k], HANDOFF_SLOT),
        entries[k].player_id == construction[top].player_id,
        forall|s: u8|
            s != HANDOFF_SLOT && research_schedule(
                entries,
                construction,
                pre_locked,
            ).appointments.contains_key(s) ==> (#[trigger] research_schedule(
                entries,
                construction,
                pre_locked,
            ).appointments[s]).player_id != construction[top].player_id,
        forall|i: int|
            0 <= i < research_schedule(entries, construction, pre_locked).unassigned.len()
                ==> #[trigger] research_schedule(entries, construction, pre_locked).unassigned[i]
                != construction[top].player_id,
{
    let day = Day::Research;
    let holder = construction[top].player_id;
    lemma_first_entry(entries, 0, holder);
    assert(handoff(entries, construction, pre_locked) == Some(k));
    let pool = candidates_of(entries, day);
    let others = without_player(pool, holder);
    let closed = pre_locked.insert(HANDOFF_SLOT);
    let rest = pool_schedule(others, day, closed, set![HANDOFF_SLOT]);
    let result = research_schedule(entries, construction, pre_locked);
    lemma_pool_schedule_laws(others, day, closed, set![HANDOFF_SLOT]);
    assert forall|s: u8| s != HANDOFF_SLOT && result.appointments.contains_key(s) implies (
    #[trigger] result.appointments[s]).player_id != holder by {
        assert(rest.appointments.contains_key(s));
        let w = choose|w: int|
            0 <= w < others.len() && rest.appointments[s] == day.seat_spec(#[trigger] others[w], s);
        lemma_without_player(pool, holder, w);
    }
    assert forall|i: int| 0 <= i < result.unassigned.len() implies #[trigger] result.unassigned[i]
        != holder by {
        let w = choose|w: int|
            0 <= w < others.len() && (#[trigger] others[w]).player_id == rest.unassigned[i];
        lemma_without_player(pool, holder, w);
    }
}

/// On research day every appointment is filed under the slot it records,
/// and where the entries carry distinct player ids no player holds two
/// slots.
pub proof fn law_research_no_double_booking(
    entries: Seq<EntryView>,
    construction: Map<u8, AppointmentView>,
    pre_locked: Set<u8>,
)
    ensures
        slots_recorded(research_schedule(entries, construction, pre_locked).appointments),
        ids_distinct(entries) ==> players_distinct(
            research_schedule(entries, construction, pre_locked).appointments,
        ),
{
    let day = Day::Research;
    let pool = candidates_of(entries, day);
    let result = research_schedule(entries, construction, pre_locked);
    if ids_distinct(entries) {
        lemma_candidates_distinct(entries, day);
    }
    match handoff(entries, construction, pre_locked) {
        Some(k) => {
            let holder = entries[k].player_id;
            let others = without_player(pool, holder);
            let closed = pre_locked.insert(HANDOFF_SLOT);
            let rest = pool_schedule(others, day, closed, set![HANDOFF_SLOT]);
            lemma_pool_schedule_laws(others, day, closed, set![HANDOFF_SLOT]);
            if ids_distinct(entries) {
                assert forall|id: Seq<char>| #[trigger] occurrences(others, id) <= 1 by {
                    lemma_distinct_counts(pool, id);
                    lemma_occurrences_without(pool, holder, id);
                }
                lemma_counts_distinct(others);
                assert forall|s: u8, t: u8|
                    result.appointments.contains_key(s) && result.appointments.contains_key(t) && s
                        != t implies (#[trigger] result.appointments[s]).player_id != (
                #[trigger] result.appointments[t]).player_id by {
                    if s == HANDOFF_SLOT || t == HANDOFF_SLOT {
                        let other = if s == HANDOFF_SLOT { t } else { s };
                        let w = choose|w: int|
                            0 <= w < others.len() && rest.appointments[other] == day.seat_spec(
                                #[trigger] others[w],
                                other,
                            );
                        lemma_without_player(pool, holder, w);
                    }
                }
            }
        },
        None => {
            let locked = if pre_locked.contains(HANDOFF_SLOT) {
                set![HANDOFF_SLOT]
            } else {
                Set::empty()
            };
            lemma_pool_schedule_laws(pool, day, pre_locked, locked);
        },
    }
}

/// On research day a slot that was closed from the outset receives nobody.
pub proof fn law_research_pre_locked_stay_empty(
    entries: Seq<EntryView>,
    construction: Map<u8, AppointmentView>,
    pre_locked: Set<u8>,
)
    ensures
        closed_stay_empty(
            research_schedule(entries, construction, pre_locked).appointments,
            pre_locked,
        ),
{
    let day = Day::Research;
    let pool = candidates_of(entries, day);
    match handoff(entries, construction, pre_locked) {
        Some(k) => {
            let closed = pre_locked.insert(HANDOFF_SLOT);
            let others = without_player(pool, entries[k].player_id);
            let rest = pool_schedule(others, day, closed, set![HANDOFF_SLOT]);
            let result = research_schedule(entries, construction, pre_locked);
            lemma_pool_schedule_laws(others, day, closed, set![HANDOFF_SLOT]);
            assert(!pre_locked.contains(HANDOFF_SLOT));
            assert forall|s: u8| pre_locked.contains(s) implies !result.appointments.contains_key(
                s,
            ) by {
                assert(closed.contains(s));
                assert(!rest.appointments.contains_key(s));
            }
        },
        None => {
            let locked = if pre_locked.contains(HANDOFF_SLOT) {
                set![HANDOFF_SLOT]
            } else {
                Set::empty()
            };
            lemma_pool_schedule_laws(pool, day, pre_locked, locked);
        },
    }
}

/// Two schedules of a plain day made from the same entries with the same
/// closed and locked slots are identical, whatever else differs between the
/// two runs.
pub proof fn law_rerun_identical(
    first: DaySchedule,
    second: DaySchedule,
    entries: Seq<EntryView>,
    day: Day,
    pre_locked: Set<u8>,
    locked: Set<u8>,
)
    requires
        first@ == generic_schedule(entries, day, pre_locked, locked),
        second@ == generic_schedule(entries, day, pre_locked, locked),
    ensures
        first@ == second@,
{
}

/// Two schedules of construction day made from the same entries with the
/// same closed slots and the same last slot are identical.
pub proof fn law_construction_rerun_identical(
    first: DaySchedule,
    second: DaySchedule,
    entries: Seq<EntryView>,
    pre_locked: Set<u8>,
    last_slot: Option<u8>,
)
    requires
        first@ == construction_schedule(entries, pre_locked, last_slot),
        second@ == construction_schedule(entries, pre_locked, last_slot),
    ensures
        first@ == second@,
{
}

/// Two schedules of research day made from the same entries, the same
/// construction outcome and the same closed slots are identical.
pub proof fn law_research_rerun_identical(
    first: DaySchedule,
    second: DaySchedule,
    entries: Seq<EntryView>,
    construction: Map<u8, AppointmentView>,
    pre_locked: Set<u8>,
)
    requires
        first@ == research_schedule(entries, construction, pre_locked),
        second@ == research_schedule(entries, construction, pre_locked),
    ensures
        first@ == second@,
{
}

} // verus!
