//! Where the candidates of a run end up: each one is seated or noted as
//! unassigned, and whoever is seated sits in a slot of their own list.

use vstd::prelude::*;
use crate::parser::EntryView;
use crate::parser::lemma_first_entry;
use super::census::{
    ids_distinct, lemma_counts_distinct, lemma_distinct_counts, lemma_occurrences_by_score,
    lemma_occurrences_concat, lemma_occurrences_found, lemma_occurrences_select,
    lemma_occurrences_without, lemma_occurrences_witness, occurrences,
};
use super::construction::{
    chosen_last_slot, construction_queue, construction_rules, construction_schedule,
    construction_start, favoured, last_slot_winner, select_favoured,
};
use super::research::{accepts_handoff, handoff, research_schedule, HANDOFF_SLOT};
use super::generic::{
    blocked_slots, by_score, candidates_of, chosen_slot, first_steal_from, first_untaken_from,
    fresh_start, generic_schedule, highest_key, holder_keys, holder_of, place, pool_rules,
    pool_schedule, popularity_keys, ranked_slots, run_spec, score_keys, seat_candidate_spec,
    space_of, steal_chain, steal_order, without_player, DayRules, RunState,
};
use super::laws::{
    construction_people, lemma_by_score_distinct, lemma_candidates_distinct, lemma_first_steal,
    lemma_first_untaken, lemma_place_keeps_shape, lemma_pool_schedule_laws, lemma_run_keeps_shape,
    lemma_steal_chain, run_inv,
};
use super::move_chain::{
    apply_chain, find_entry, lemma_apply_fitting_chain, lemma_chain_carries,
    lemma_chain_keeps_seated, lemma_chain_listed, lists_slot_of, move_applies, relocated,
};
use super::ordering::{lemma_sorted_by_keys, stable_order};
use super::types::{AppointmentView, Board, Day};

verus! {

/// Whether player `id` holds a slot.
pub open spec fn is_seated(seats: Map<u8, AppointmentView>, id: Seq<char>) -> bool {
    exists|s: u8| #[trigger] seats.contains_key(s) && seats[s].player_id == id
}

/// Whether every holder is one of `people`, seated as themselves in a slot
/// of their own list.
pub open spec fn seated_on_lists(seats: Map<u8, AppointmentView>, day: Day, people: Seq<EntryView>) -> bool {
    forall|s: u8| #[trigger]
        seats.contains_key(s) ==> exists|k: int|
            0 <= k < people.len() && seats[s] == day.seat_spec(#[trigger] people[k], s)
                && day.slots_spec(people[k]).contains(s)
}

/// Whether `e` is a record of `roster`.
pub open spec fn is_listed(roster: Seq<EntryView>, e: EntryView) -> bool {
    exists|j: int| 0 <= j < roster.len() && #[trigger] roster[j] == e
}

/// Whether every one of `people` is a record of `roster`.
pub open spec fn all_in(people: Seq<EntryView>, roster: Seq<EntryView>) -> bool {
    forall|k: int| 0 <= k < people.len() ==> #[trigger] is_listed(roster, people[k])
}

proof fn lemma_blocked_listed(roster: Seq<EntryView>, seats: Map<u8, AppointmentView>, slots: Seq<u8>)
    ensures
        forall|i: int|
            0 <= i < blocked_slots(roster, seats, slots).len() ==> slots.contains(
                #[trigger] blocked_slots(roster, seats, slots)[i],
            ),
    decreases slots.len(),
{
    if slots.len() > 0 {
        let init = slots.drop_last();
        lemma_blocked_listed(roster, seats, init);
        let sub = blocked_slots(roster, seats, init);
        let all = blocked_slots(roster, seats, slots);
        assert forall|i: int| 0 <= i < all.len() implies slots.contains(#[trigger] all[i]) by {
            if i < sub.len() {
                assert(init.contains(sub[i]));
                let w = choose|w: int| 0 <= w < init.len() && init[w] == sub[i];
                assert(slots[w] == all[i]);
            } else {
                assert(slots[slots.len() - 1] == all[i]);
            }
        }
    }
}

/// The slot a candidate gets is a slot of their own list.
pub proof fn lemma_chosen_listed(rules: DayRules, b: Board, c: EntryView)
    ensures
        match chosen_slot(rules, b, c) {
            Some(slot) => rules.day.slots_spec(c).contains(slot),
            None => true,
        },
{
    let avail = rules.day.slots_spec(c);
    let keys = popularity_keys(avail, rules.rankings);
    let ranked = ranked_slots(avail, rules.rankings);
    lemma_sorted_by_keys(avail, keys, true);
    let order = stable_order(keys, true);
    assert forall|i: int| 0 <= i < ranked.len() implies avail.contains(#[trigger] ranked[i]) by {
        assert(ranked[i] == avail[order[i]]);
    }
    lemma_first_untaken(ranked, 0, b.used);
    match first_untaken_from(ranked, 0, b.used) {
        Some(slot) => {
            let w = choose|w: int| 0 <= w < ranked.len() && ranked[w] == slot;
            assert(avail.contains(ranked[w]));
        },
        None => {
            let blocked = blocked_slots(rules.roster, b.seats, ranked);
            let targets = steal_order(rules.roster, b.seats, ranked);
            lemma_blocked_listed(rules.roster, b.seats, ranked);
            let target_keys = holder_keys(b.seats, blocked);
            lemma_sorted_by_keys(blocked, target_keys, false);
            let target_order = stable_order(target_keys, false);
            lemma_first_steal(rules, b, c, targets, 0);
            match first_steal_from(rules, b, c, targets, 0) {
                Some(i) => {
                    assert(targets[i] == blocked[target_order[i]]);
                    assert(ranked.contains(blocked[target_order[i]]));
                    let w = choose|w: int| 0 <= w < ranked.len() && ranked[w] == targets[i];
                    assert(avail.contains(ranked[w]));
                },
                None => {},
            }
        },
    }
}

/// Whoever is seated stays seated when another candidate is seated.
pub proof fn lemma_seat_keeps_seated(
    rules: DayRules,
    b: Board,
    c: EntryView,
    pre_locked: Set<u8>,
    people: Seq<EntryView>,
    id: Seq<char>,
)
    requires
        run_inv(b, rules.day, pre_locked, people),
        is_seated(b.seats, id),
    ensures
        is_seated(seat_candidate_spec(rules, b, c).board.seats, id),
{
    let after = seat_candidate_spec(rules, b, c).board;
    let ranked = ranked_slots(rules.day.slots_spec(c), rules.rankings);
    let s = choose|s: u8| #[trigger] b.seats.contains_key(s) && b.seats[s].player_id == id;
    lemma_first_untaken(ranked, 0, b.used);
    match first_untaken_from(ranked, 0, b.used) {
        Some(slot) => {
            assert(after.seats.contains_key(s) && after.seats[s].player_id == id);
        },
        None => {
            let targets = steal_order(rules.roster, b.seats, ranked);
            lemma_first_steal(rules, b, c, targets, 0);
            match first_steal_from(rules, b, c, targets, 0) {
                Some(i) => {
                    let slot = targets[i];
                    let chain = steal_chain(rules, b, c, slot).unwrap();
                    lemma_steal_chain(rules, b, c, slot);
                    lemma_apply_fitting_chain(b, chain);
                    lemma_chain_keeps_seated(b, chain);
                    let moved = apply_chain(b, chain);
                    let t = choose|t: u8| #[trigger]
                        moved.seats.contains_key(t) && moved.seats[t] == relocated(b.seats[s], t);
                    assert(moved.used.contains(t));
                    assert(t != slot);
                    assert(after.seats.contains_key(t) && after.seats[t].player_id == id);
                },
                None => {
                    assert(after.seats.contains_key(s) && after.seats[s].player_id == id);
                },
            }
        },
    }
}

/// A candidate who gets a seat is seated.
pub proof fn lemma_seat_outcome(rules: DayRules, b: Board, c: EntryView)
    ensures
        seat_candidate_spec(rules, b, c).seated ==> is_seated(
            seat_candidate_spec(rules, b, c).board.seats,
            c.player_id,
        ),
{
    let after = seat_candidate_spec(rules, b, c).board;
    match chosen_slot(rules, b, c) {
        Some(slot) => {
            assert(after.seats.contains_key(slot) && after.seats[slot].player_id == c.player_id);
        },
        None => {},
    }
}

/// After a run every candidate of the queue holds a slot or is on the
/// unassigned list, and whoever was seated or listed before still is.
pub proof fn lemma_run_accounts(
    rules: DayRules,
    start: RunState,
    queue: Seq<EntryView>,
    pre_locked: Set<u8>,
    people: Seq<EntryView>,
)
    requires
        run_inv(start.board, rules.day, pre_locked, people),
    ensures
        forall|k: int|
            0 <= k < queue.len() ==> is_seated(
                run_spec(rules, start, queue).board.seats,
                (#[trigger] queue[k]).player_id,
            ) || run_spec(rules, start, queue).unassigned.contains(queue[k].player_id),
        forall|id: Seq<char>|
            is_seated(start.board.seats, id) ==> is_seated(
                run_spec(rules, start, queue).board.seats,
                id,
            ),
        forall|id: Seq<char>|
            start.unassigned.contains(id) ==> run_spec(rules, start, queue).unassigned.contains(id),
    decreases queue.len(),
{
    if queue.len() > 0 {
        let init = queue.drop_last();
        let c = queue.last();
        lemma_run_accounts(rules, start, init, pre_locked, people);
        lemma_run_keeps_shape(rules, start, init, pre_locked, people);
        let prev = run_spec(rules, start, init);
        let end = run_spec(rules, start, queue);
        lemma_seat_outcome(rules, prev.board, c);
        assert forall|id: Seq<char>| is_seated(prev.board.seats, id) implies is_seated(
            end.board.seats,
            id,
        ) by {
            lemma_seat_keeps_seated(rules, prev.board, c, pre_locked, people + init, id);
        }
        assert forall|id: Seq<char>| prev.unassigned.contains(id) implies end.unassigned.contains(
            id,
        ) by {
            let w = choose|w: int| 0 <= w < prev.unassigned.len() && prev.unassigned[w] == id;
            assert(end.unassigned[w] == id);
        }
        assert forall|k: int| 0 <= k < queue.len() implies is_seated(
            end.board.seats,
            (#[trigger] queue[k]).player_id,
        ) || end.unassigned.contains(queue[k].player_id) by {
            if k < init.len() {
                assert(init[k] == queue[k]);
            } else {
                if !seat_candidate_spec(rules, prev.board, c).seated {
                    assert(end.unassigned[prev.unassigned.len() as int] == c.player_id);
                }
            }
        }
    }
}

/// The position of a record is where the roster finds its player.
pub proof fn lemma_find_own_entry(roster: Seq<EntryView>, j: int)
    requires
        ids_distinct(roster),
        0 <= j < roster.len(),
    ensures
        find_entry(roster, roster[j].player_id) == Some(j),
    decreases roster.len(),
{
    if j < roster.len() - 1 {
        let init = roster.drop_last();
        assert(roster[j].player_id != roster[roster.len() - 1].player_id);
        assert forall|a: int, b: int| 0 <= a < b < init.len() implies (#[trigger] init[a]).player_id
            != (#[trigger] init[b]).player_id by {
            assert(roster[a].player_id != roster[b].player_id);
        }
        lemma_find_own_entry(init, j);
    }
}

/// Seating one more candidate keeps everybody in slots of their own lists,
/// where the roster holds one record for each player and knows everybody
/// seated.
pub proof fn lemma_seat_keeps_lists(
    rules: DayRules,
    b: Board,
    c: EntryView,
    pre_locked: Set<u8>,
    people: Seq<EntryView>,
)
    requires
        run_inv(b, rules.day, pre_locked, people),
        seated_on_lists(b.seats, rules.day, people),
        ids_distinct(rules.roster),
        all_in(people, rules.roster),
    ensures
        seated_on_lists(seat_candidate_spec(rules, b, c).board.seats, rules.day, people.push(c)),
{
    let day = rules.day;
    let more = people.push(c);
    let after = seat_candidate_spec(rules, b, c).board;
    let ranked = ranked_slots(day.slots_spec(c), rules.rankings);
    assert forall|k: int| 0 <= k < people.len() implies #[trigger] more[k] == people[k] by {}
    assert(more[people.len() as int] == c);
    lemma_chosen_listed(rules, b, c);
    lemma_first_untaken(ranked, 0, b.used);
    match first_untaken_from(ranked, 0, b.used) {
        Some(slot) => {
            lemma_place_keeps_lists(b, day, c, slot, people);
        },
        None => {
            let targets = steal_order(rules.roster, b.seats, ranked);
            lemma_first_steal(rules, b, c, targets, 0);
            match first_steal_from(rules, b, c, targets, 0) {
                Some(i) => {
                    let slot = targets[i];
                    let chain = steal_chain(rules, b, c, slot).unwrap();
                    let sp = space_of(rules, b);
                    let holder = b.seats[slot].player_id;
                    let avail = day.slots_spec(holder_of(rules.roster, b.seats, slot));
                    lemma_steal_chain(rules, b, c, slot);
                    lemma_chain_listed(sp, holder, slot, avail, 1, seq![holder]);
                    lemma_chain_carries(b, chain);
                    let moved = apply_chain(b, chain);
                    assert forall|t: u8| #[trigger] moved.seats.contains_key(t) implies exists|
                        k: int,
                    |
                        0 <= k < people.len() && moved.seats[t] == day.seat_spec(
                            #[trigger] people[k],
                            t,
                        ) && day.slots_spec(people[k]).contains(t) by {
                        if b.seats.contains_key(t) && moved.seats[t] == b.seats[t] {
                        } else {
                            let m = choose|m: int|
                                0 <= m < chain.len() && (#[trigger] chain[m]).to_slot == t
                                    && b.seats.contains_key(chain[m].from_slot) && moved.seats[t]
                                    == relocated(b.seats[chain[m].from_slot], t);
                            let from = chain[m].from_slot;
                            let k = choose|k: int|
                                0 <= k < people.len() && b.seats[from] == day.seat_spec(
                                    #[trigger] people[k],
                                    from,
                                ) && day.slots_spec(people[k]).contains(from);
                            assert(is_listed(rules.roster, people[k]));
                            let j = choose|j: int|
                                0 <= j < rules.roster.len() && #[trigger] rules.roster[j]
                                    == people[k];
                            lemma_find_own_entry(rules.roster, j);
                            assert(move_applies(b, chain[m]));
                            assert(chain[m].player_id == people[k].player_id);
                            if m == 0 {
                                assert(from == slot);
                                assert(avail == day.slots_spec(people[k]));
                            } else {
                                assert(lists_slot_of(sp, chain[m].player_id, t));
                            }
                            assert(moved.seats[t] == day.seat_spec(people[k], t));
                        }
                    }
                    lemma_place_keeps_lists(moved, day, c, slot, people);
                },
                None => {
                    assert forall|s: u8| #[trigger] after.seats.contains_key(s) implies exists|
                        k: int,
                    |
                        0 <= k < more.len() && after.seats[s] == day.seat_spec(
                            #[trigger] more[k],
                            s,
                        ) && day.slots_spec(more[k]).contains(s) by {
                        let k = choose|k: int|
                            0 <= k < people.len() && b.seats[s] == day.seat_spec(
                                #[trigger] people[k],
                                s,
                            ) && day.slots_spec(people[k]).contains(s);
                        assert(more[k] == people[k]);
                    }
                },
            }
        },
    }
}

proof fn lemma_place_keeps_lists(b: Board, day: Day, c: EntryView, slot: u8, people: Seq<EntryView>)
    requires
        seated_on_lists(b.seats, day, people),
        day.slots_spec(c).contains(slot),
    ensures
        seated_on_lists(place(b, day, c, slot).seats, day, people.push(c)),
{
    let more = people.push(c);
    let after = place(b, day, c, slot);
    assert forall|s: u8| #[trigger] after.seats.contains_key(s) implies exists|k: int|
        0 <= k < more.len() && after.seats[s] == day.seat_spec(#[trigger] more[k], s)
            && day.slots_spec(more[k]).contains(s) by {
        if s == slot {
            assert(more[people.len() as int] == c);
        } else {
            let k = choose|k: int|
                0 <= k < people.len() && b.seats[s] == day.seat_spec(#[trigger] people[k], s)
                    && day.slots_spec(people[k]).contains(s);
            assert(more[k] == people[k]);
        }
    }
}

/// Seating a queue keeps everybody in slots of their own lists.
pub proof fn lemma_run_keeps_lists(
    rules: DayRules,
    start: RunState,
    queue: Seq<EntryView>,
    pre_locked: Set<u8>,
    people: Seq<EntryView>,
)
    requires
        run_inv(start.board, rules.day, pre_locked, people),
        seated_on_lists(start.board.seats, rules.day, people),
        ids_distinct(rules.roster),
        all_in(people + queue, rules.roster),
    ensures
        seated_on_lists(run_spec(rules, start, queue).board.seats, rules.day, people + queue),
    decreases queue.len(),
{
    if queue.len() == 0 {
        assert(people + queue =~= people);
    } else {
        let init = queue.drop_last();
        let shorter = people + init;
        let longer = people + queue;
        assert forall|k: int| 0 <= k < shorter.len() implies #[trigger] is_listed(
            rules.roster,
            shorter[k],
        ) by {
            assert(longer[k] == shorter[k]);
            assert(is_listed(rules.roster, longer[k]));
        }
        assert(all_in(shorter, rules.roster));
        lemma_run_keeps_lists(rules, start, init, pre_locked, people);
        lemma_run_keeps_shape(rules, start, init, pre_locked, people);
        let prev = run_spec(rules, start, init);
        lemma_seat_keeps_lists(rules, prev.board, queue.last(), pre_locked, people + init);
        assert((people + init).push(queue.last()) =~= people + queue);
    }
}

/// Where the candidates of a pool carry distinct player ids, everybody in
/// the pool's schedule is a member of the pool who sits in a slot of their
/// own list.
pub proof fn lemma_pool_seated_on_lists(
    pool: Seq<EntryView>,
    day: Day,
    pre_locked: Set<u8>,
    locked: Set<u8>,
)
    requires
        ids_distinct(pool),
    ensures
        seated_on_lists(pool_schedule(pool, day, pre_locked, locked).appointments, day, pool),
{
    let rules = pool_rules(pool, day, locked);
    let start = fresh_start(pre_locked);
    let sorted = by_score(pool, day);
    let nobody = Seq::<EntryView>::empty();
    let seats = pool_schedule(pool, day, pre_locked, locked).appointments;
    lemma_by_score_distinct(pool, day);
    assert(run_inv(start.board, day, pre_locked, nobody));
    assert(nobody + sorted =~= sorted);
    assert forall|k: int| 0 <= k < sorted.len() implies #[trigger] is_listed(
        sorted,
        sorted[k],
    ) by {}
    lemma_run_keeps_lists(rules, start, sorted, pre_locked, nobody);
    lemma_sorted_by_keys(pool, score_keys(pool, day), true);
    let order = stable_order(score_keys(pool, day), true);
    assert forall|s: u8| #[trigger] seats.contains_key(s) implies exists|k: int|
        0 <= k < pool.len() && seats[s] == day.seat_spec(#[trigger] pool[k], s) && day.slots_spec(
            pool[k],
        ).contains(s) by {
        let k = choose|k: int|
            0 <= k < sorted.len() && seats[s] == day.seat_spec(#[trigger] sorted[k], s)
                && day.slots_spec(sorted[k]).contains(s);
        assert(sorted[k] == pool[order[k]]);
    }
}

/// In the schedule of a pool each member holds a slot or is on the
/// unassigned list.
pub proof fn lemma_pool_accounts(pool: Seq<EntryView>, day: Day, pre_locked: Set<u8>, locked: Set<u8>)
    ensures
        forall|k: int|
            0 <= k < pool.len() ==> is_seated(
                pool_schedule(pool, day, pre_locked, locked).appointments,
                (#[trigger] pool[k]).player_id,
            ) || pool_schedule(pool, day, pre_locked, locked).unassigned.contains(
                pool[k].player_id,
            ),
{
    let rules = pool_rules(pool, day, locked);
    let start = fresh_start(pre_locked);
    let sorted = by_score(pool, day);
    let nobody = Seq::<EntryView>::empty();
    let result = pool_schedule(pool, day, pre_locked, locked);
    assert(run_inv(start.board, day, pre_locked, nobody));
    lemma_run_accounts(rules, start, sorted, pre_locked, nobody);
    assert forall|k: int| 0 <= k < pool.len() implies is_seated(
        result.appointments,
        (#[trigger] pool[k]).player_id,
    ) || result.unassigned.contains(pool[k].player_id) by {
        let id = pool[k].player_id;
        lemma_occurrences_found(pool, k, id);
        lemma_occurrences_by_score(pool, day, id);
        lemma_occurrences_witness(sorted, id);
        let w = choose|w: int| 0 <= w < sorted.len() && (#[trigger] sorted[w]).player_id == id;
        assert(is_seated(result.appointments, sorted[w].player_id) || result.unassigned.contains(
            sorted[w].player_id,
        ));
    }
}

/// On a plain day, where the entries carry distinct player ids, everybody
/// in the schedule is one of the day's candidates and sits in a slot of
/// their own list.
pub proof fn law_seated_on_own_lists(
    entries: Seq<EntryView>,
    day: Day,
    pre_locked: Set<u8>,
    locked: Set<u8>,
)
    requires
        ids_distinct(entries),
    ensures
        seated_on_lists(
            generic_schedule(entries, day, pre_locked, locked).appointments,
            day,
            candidates_of(entries, day),
        ),
{
    lemma_candidates_distinct(entries, day);
    lemma_pool_seated_on_lists(candidates_of(entries, day), day, pre_locked, locked);
}

/// On a plain day each of the day's candidates holds a slot or is on the
/// unassigned list.
pub proof fn law_everyone_accounted_for(
    entries: Seq<EntryView>,
    day: Day,
    pre_locked: Set<u8>,
    locked: Set<u8>,
)
    ensures
        forall|k: int|
            0 <= k < candidates_of(entries, day).len() ==> is_seated(
                generic_schedule(entries, day, pre_locked, locked).appointments,
                (#[trigger] candidates_of(entries, day)[k]).player_id,
            ) || generic_schedule(entries, day, pre_locked, locked).unassigned.contains(
                candidates_of(entries, day)[k].player_id,
            ),
{
    lemma_pool_accounts(candidates_of(entries, day), day, pre_locked, locked);
}

proof fn lemma_by_score_listed(pool: Seq<EntryView>, day: Day)
    ensures
        all_in(by_score(pool, day), pool),
{
    let sorted = by_score(pool, day);
    lemma_sorted_by_keys(pool, score_keys(pool, day), true);
    let order = stable_order(score_keys(pool, day), true);
    assert forall|k: int| 0 <= k < sorted.len() implies #[trigger] is_listed(pool, sorted[k]) by {
        assert(pool[order[k]] == sorted[k]);
    }
}

proof fn lemma_favoured_listed(pool: Seq<EntryView>, last: u8, wanted: bool)
    ensures
        all_in(select_favoured(pool, last, wanted), pool),
        forall|k: int|
            0 <= k < select_favoured(pool, last, wanted).len() ==> favoured(
                #[trigger] select_favoured(pool, last, wanted)[k],
                last,
            ) == wanted,
    decreases pool.len(),
{
    if pool.len() > 0 {
        let init = pool.drop_last();
        lemma_favoured_listed(init, last, wanted);
        let sub = select_favoured(init, last, wanted);
        let all = select_favoured(pool, last, wanted);
        assert forall|k: int| 0 <= k < all.len() implies #[trigger] is_listed(pool, all[k]) by {
            if k < sub.len() {
                assert(is_listed(init, sub[k]));
                let j = choose|j: int| 0 <= j < init.len() && #[trigger] init[j] == sub[k];
                assert(pool[j] == all[k]);
            } else {
                assert(pool[pool.len() - 1] == all[k]);
            }
        }
        assert forall|k: int| 0 <= k < all.len() implies favoured(#[trigger] all[k], last)
            == wanted by {
            if k < sub.len() {
                assert(all[k] == sub[k]);
            }
        }
    }
}

proof fn lemma_without_listed(pool: Seq<EntryView>, gone: Seq<char>)
    ensures
        all_in(without_player(pool, gone), pool),
    decreases pool.len(),
{
    if pool.len() > 0 {
        let init = pool.drop_last();
        lemma_without_listed(init, gone);
        let sub = without_player(init, gone);
        let all = without_player(pool, gone);
        assert forall|k: int| 0 <= k < all.len() implies #[trigger] is_listed(pool, all[k]) by {
            if k < sub.len() {
                assert(is_listed(init, sub[k]));
                let j = choose|j: int| 0 <= j < init.len() && #[trigger] init[j] == sub[k];
                assert(pool[j] == all[k]);
            } else {
                assert(pool[pool.len() - 1] == all[k]);
            }
        }
    }
}

proof fn lemma_all_in_chain(a: Seq<EntryView>, b: Seq<EntryView>, c: Seq<EntryView>)
    requires
        all_in(a, b),
        all_in(b, c),
    ensures
        all_in(a, c),
{
    assert forall|k: int| 0 <= k < a.len() implies #[trigger] is_listed(c, a[k]) by {
        assert(is_listed(b, a[k]));
        let j = choose|j: int| 0 <= j < b.len() && #[trigger] b[j] == a[k];
        assert(is_listed(c, b[j]));
    }
}

proof fn lemma_all_in_joined(a: Seq<EntryView>, b: Seq<EntryView>, c: Seq<EntryView>)
    requires
        all_in(a, c),
        all_in(b, c),
    ensures
        all_in(a + b, c),
{
    assert forall|k: int| 0 <= k < (a + b).len() implies #[trigger] is_listed(c, (a + b)[k]) by {
        if k < a.len() {
            assert(is_listed(c, a[k]));
        } else {
            assert(is_listed(c, b[k - a.len()]));
        }
    }
}

/// Everybody who enters a construction run is a member of the pool, and the
/// winner of the last slot lists it.
pub proof fn lemma_construction_people_listed(pool: Seq<EntryView>, pre_locked: Set<u8>, last: u8)
    ensures
        all_in(construction_people(pool, pre_locked, last), pool),
        match last_slot_winner(pool, pre_locked, last) {
            Some(winner) => Day::Construction.slots_spec(winner).contains(last),
            None => true,
        },
{
    let day = Day::Construction;
    let chosen = select_favoured(pool, last, true);
    let left = select_favoured(pool, last, false);
    let first = by_score(chosen, day);
    let others = by_score(left, day);
    lemma_favoured_listed(pool, last, true);
    lemma_favoured_listed(pool, last, false);
    lemma_by_score_listed(chosen, day);
    lemma_by_score_listed(left, day);
    lemma_all_in_chain(first, chosen, pool);
    lemma_all_in_chain(others, left, pool);
    match last_slot_winner(pool, pre_locked, last) {
        Some(winner) => {
            let rest = without_player(first, winner.player_id);
            lemma_without_listed(first, winner.player_id);
            lemma_all_in_chain(rest, first, pool);
            lemma_all_in_joined(rest, others, pool);
            lemma_by_score_listed(rest + others, day);
            lemma_all_in_chain(by_score(rest + others, day), rest + others, pool);
            assert(is_listed(pool, first[0]));
            assert(all_in(seq![winner], pool)) by {
                assert forall|k: int| 0 <= k < seq![winner].len() implies #[trigger] is_listed(
                    pool,
                    seq![winner][k],
                ) by {}
            }
            lemma_all_in_joined(seq![winner], construction_queue(pool, pre_locked, last), pool);
            assert(is_listed(chosen, first[0]));
            let j = choose|j: int| 0 <= j < chosen.len() && #[trigger] chosen[j] == first[0];
            assert(favoured(chosen[j], last));
        },
        None => {
            lemma_all_in_joined(first, others, pool);
            lemma_by_score_listed(first + others, day);
            lemma_all_in_chain(by_score(first + others, day), first + others, pool);
        },
    }
}

/// On construction day, where the entries carry distinct player ids,
/// everybody in the schedule is one of the day's candidates and sits in a
/// slot of their own list.
pub proof fn law_construction_seated_on_own_lists(
    entries: Seq<EntryView>,
    pre_locked: Set<u8>,
    last_slot: Option<u8>,
)
    requires
        ids_distinct(entries),
    ensures
        seated_on_lists(
            construction_schedule(entries, pre_locked, last_slot).appointments,
            Day::Construction,
            candidates_of(entries, Day::Construction),
        ),
{
    let day = Day::Construction;
    let pool = candidates_of(entries, day);
    let last = chosen_last_slot(pool, last_slot);
    let rules = construction_rules(pool, last);
    let start = construction_start(pool, pre_locked, last);
    let queue = construction_queue(pool, pre_locked, last);
    let people = construction_people(pool, pre_locked, last);
    let nobody = Seq::<EntryView>::empty();
    let fresh = fresh_start(pre_locked);
    let seats = construction_schedule(entries, pre_locked, last_slot).appointments;
    lemma_candidates_distinct(entries, day);
    lemma_construction_people_listed(pool, pre_locked, last);
    assert(run_inv(fresh.board, day, pre_locked, nobody));
    assert(seated_on_lists(fresh.board.seats, day, nobody));
    match last_slot_winner(pool, pre_locked, last) {
        Some(winner) => {
            lemma_place_keeps_shape(fresh.board, day, winner, last, pre_locked, nobody);
            lemma_place_keeps_lists(fresh.board, day, winner, last, nobody);
            assert(nobody.push(winner) =~= seq![winner]);
            lemma_run_keeps_lists(rules, start, queue, pre_locked, seq![winner]);
        },
        None => {
            assert(nobody + queue =~= queue);
            lemma_run_keeps_lists(rules, start, queue, pre_locked, nobody);
        },
    }
    assert forall|s: u8| #[trigger] seats.contains_key(s) implies exists|k: int|
        0 <= k < pool.len() && seats[s] == day.seat_spec(#[trigger] pool[k], s) && day.slots_spec(
            pool[k],
        ).contains(s) by {
        let k = choose|k: int|
            0 <= k < people.len() && seats[s] == day.seat_spec(#[trigger] people[k], s)
                && day.slots_spec(people[k]).contains(s);
        assert(is_listed(pool, people[k]));
        let j = choose|j: int| 0 <= j < pool.len() && #[trigger] pool[j] == people[k];
        assert(seats[s] == day.seat_spec(pool[j], s));
    }
}

/// On construction day each of the day's candidates holds a slot or is on
/// the unassigned list.
pub proof fn law_construction_everyone_accounted_for(
    entries: Seq<EntryView>,
    pre_locked: Set<u8>,
    last_slot: Option<u8>,
)
    ensures
        forall|k: int|
            0 <= k < candidates_of(entries, Day::Construction).len() ==> is_seated(
                construction_schedule(entries, pre_locked, last_slot).appointments,
                (#[trigger] candidates_of(entries, Day::Construction)[k]).player_id,
            ) || construction_schedule(entries, pre_locked, last_slot).unassigned.contains(
                candidates_of(entries, Day::Construction)[k].player_id,
            ),
{
    let day = Day::Construction;
    let pool = candidates_of(entries, day);
    let last = chosen_last_slot(pool, last_slot);
    let rules = construction_rules(pool, last);
    let start = construction_start(pool, pre_locked, last);
    let queue = construction_queue(pool, pre_locked, last);
    let nobody = Seq::<EntryView>::empty();
    let fresh = fresh_start(pre_locked);
    let result = construction_schedule(entries, pre_locked, last_slot);
    let chosen = select_favoured(pool, last, true);
    let left = select_favoured(pool, last, false);
    let first = by_score(chosen, day);
    let others = by_score(left, day);
    assert(run_inv(fresh.board, day, pre_locked, nobody));
    match last_slot_winner(pool, pre_locked, last) {
        Some(winner) => {
            lemma_place_keeps_shape(fresh.board, day, winner, last, pre_locked, nobody);
            lemma_run_accounts(rules, start, queue, pre_locked, nobody.push(winner));
            assert(start.board.seats.contains_key(last) && start.board.seats[last].player_id
                == winner.player_id);
            assert(is_seated(start.board.seats, winner.player_id));
        },
        None => {
            lemma_run_accounts(rules, start, queue, pre_locked, nobody);
        },
    }
    assert forall|k: int| 0 <= k < pool.len() implies is_seated(
        result.appointments,
        (#[trigger] pool[k]).player_id,
    ) || result.unassigned.contains(pool[k].player_id) by {
        let id = pool[k].player_id;
        lemma_occurrences_found(pool, k, id);
        lemma_occurrences_select(pool, last, id);
        lemma_occurrences_by_score(chosen, day, id);
        lemma_occurrences_by_score(left, day, id);
        match last_slot_winner(pool, pre_locked, last) {
            Some(winner) => {
                if id != winner.player_id {
                    let rest = without_player(first, winner.player_id);
                    lemma_occurrences_without(first, winner.player_id, id);
                    lemma_occurrences_concat(rest, others, id);
                    lemma_occurrences_by_score(rest + others, day, id);
                    lemma_occurrences_witness(queue, id);
                    let w = choose|w: int|
                        0 <= w < queue.len() && (#[trigger] queue[w]).player_id == id;
                    assert(is_seated(result.appointments, queue[w].player_id)
                        || result.unassigned.contains(queue[w].player_id));
                }
            },
            None => {
                lemma_occurrences_concat(first, others, id);
                lemma_occurrences_by_score(first + others, day, id);
                lemma_occurrences_witness(queue, id);
                let w = choose|w: int| 0 <= w < queue.len() && (#[trigger] queue[w]).player_id == id;
                assert(is_seated(result.appointments, queue[w].player_id)
                    || result.unassigned.contains(queue[w].player_id));
            },
        }
    }
}

/// A candidate among the entries is a member of the day's pool.
pub proof fn lemma_candidate_listed(entries: Seq<EntryView>, day: Day, k: int)
    requires
        0 <= k < entries.len(),
        day.is_candidate(entries[k]),
    ensures
        is_listed(candidates_of(entries, day), entries[k]),
    decreases entries.len(),
{
    let all = candidates_of(entries, day);
    if k == entries.len() - 1 {
        assert(all[all.len() - 1] == entries[k]);
    } else {
        let init = entries.drop_last();
        lemma_candidate_listed(init, day, k);
        let sub = candidates_of(init, day);
        let j = choose|j: int| 0 <= j < sub.len() && #[trigger] sub[j] == init[k];
        assert(all[j] == entries[k]);
    }
}

/// On research day, where the entries carry distinct player ids, everybody
/// in the schedule is one of the day's candidates and sits in a slot of
/// their own list.
pub proof fn law_research_seated_on_own_lists(
    entries: Seq<EntryView>,
    construction: Map<u8, AppointmentView>,
    pre_locked: Set<u8>,
)
    requires
        ids_distinct(entries),
    ensures
        seated_on_lists(
            research_schedule(entries, construction, pre_locked).appointments,
            Day::Research,
            candidates_of(entries, Day::Research),
        ),
{
    let day = Day::Research;
    let pool = candidates_of(entries, day);
    let seats = research_schedule(entries, construction, pre_locked).appointments;
    lemma_candidates_distinct(entries, day);
    match handoff(entries, construction, pre_locked) {
        Some(k) => {
            let holder = entries[k].player_id;
            let others = without_player(pool, holder);
            let closed = pre_locked.insert(HANDOFF_SLOT);
            let rest = pool_schedule(others, day, closed, set![HANDOFF_SLOT]);
            lemma_handoff(entries, construction, pre_locked);
            assert forall|id: Seq<char>| #[trigger] occurrences(others, id) <= 1 by {
                lemma_distinct_counts(pool, id);
                lemma_occurrences_without(pool, holder, id);
            }
            lemma_counts_distinct(others);
            lemma_pool_seated_on_lists(others, day, closed, set![HANDOFF_SLOT]);
            lemma_without_listed(pool, holder);
            lemma_candidate_listed(entries, day, k);
            assert forall|s: u8| #[trigger] seats.contains_key(s) implies exists|w: int|
                0 <= w < pool.len() && seats[s] == day.seat_spec(#[trigger] pool[w], s)
                    && day.slots_spec(pool[w]).contains(s) by {
                if s == HANDOFF_SLOT {
                    let j = choose|j: int| 0 <= j < pool.len() && #[trigger] pool[j] == entries[k];
                    assert(seats[s] == day.seat_spec(pool[j], s));
                } else {
                    let w = choose|w: int|
                        0 <= w < others.len() && rest.appointments[s] == day.seat_spec(
                            #[trigger] others[w],
                            s,
                        ) && day.slots_spec(others[w]).contains(s);
                    assert(is_listed(pool, others[w]));
                    let j = choose|j: int| 0 <= j < pool.len() && #[trigger] pool[j] == others[w];
                    assert(seats[s] == day.seat_spec(pool[j], s));
                }
            }
        },
        None => {
            let locked = if pre_locked.contains(HANDOFF_SLOT) {
                set![HANDOFF_SLOT]
            } else {
                Set::empty()
            };
            lemma_pool_seated_on_lists(pool, day, pre_locked, locked);
        },
    }
}

/// The entry that is handed research's first slot accepts it and takes
/// part in research day.
pub proof fn lemma_handoff(entries: Seq<EntryView>, construction: Map<u8, AppointmentView>, pre_locked: Set<u8>)
    ensures
        match handoff(entries, construction, pre_locked) {
            Some(k) => 0 <= k < entries.len() && accepts_handoff(entries[k])
                && Day::Research.is_candidate(entries[k]),
            None => true,
        },
{
    match highest_key(construction) {
        Some(last) => {
            lemma_first_entry(entries, 0, construction[last].player_id);
            match handoff(entries, construction, pre_locked) {
                Some(k) => {
                    let slots = entries[k].research_available_slots;
                    let w = choose|w: int| 0 <= w < slots.len() && slots[w] == HANDOFF_SLOT;
                    assert(slots.len() > 0);
                },
                None => {},
            }
        },
        None => {},
    }
}

/// On research day each of the day's candidates holds a slot or is on the
/// unassigned list.
pub proof fn law_research_everyone_accounted_for(
    entries: Seq<EntryView>,
    construction: Map<u8, AppointmentView>,
    pre_locked: Set<u8>,
)
    ensures
        forall|k: int|
            0 <= k < candidates_of(entries, Day::Research).len() ==> is_seated(
                research_schedule(entries, construction, pre_locked).appointments,
                (#[trigger] candidates_of(entries, Day::Research)[k]).player_id,
            ) || research_schedule(entries, construction, pre_locked).unassigned.contains(
                candidates_of(entries, Day::Research)[k].player_id,
            ),
{
    let day = Day::Research;
    let pool = candidates_of(entries, day);
    let result = research_schedule(entries, construction, pre_locked);
    match handoff(entries, construction, pre_locked) {
        Some(h) => {
            lemma_handoff(entries, construction, pre_locked);
            let holder = entries[h].player_id;
            let others = without_player(pool, holder);
            let closed = pre_locked.insert(HANDOFF_SLOT);
            let rest = pool_schedule(others, day, closed, set![HANDOFF_SLOT]);
            lemma_pool_accounts(others, day, closed, set![HANDOFF_SLOT]);
            lemma_pool_schedule_laws(others, day, closed, set![HANDOFF_SLOT]);
            assert(result.appointments.contains_key(HANDOFF_SLOT)
                && result.appointments[HANDOFF_SLOT].player_id == holder);
            assert forall|k: int| 0 <= k < pool.len() implies is_seated(
                result.appointments,
                (#[trigger] pool[k]).player_id,
            ) || result.unassigned.contains(pool[k].player_id) by {
                let id = pool[k].player_id;
                if id != holder {
                    lemma_occurrences_found(pool, k, id);
                    lemma_occurrences_without(pool, holder, id);
                    lemma_occurrences_witness(others, id);
                    let w = choose|w: int|
                        0 <= w < others.len() && (#[trigger] others[w]).player_id == id;
                    assert(is_seated(rest.appointments, others[w].player_id)
                        || rest.unassigned.contains(others[w].player_id));
                    if is_seated(rest.appointments, id) {
                        let s = choose|s: u8| #[trigger]
                            rest.appointments.contains_key(s) && rest.appointments[s].player_id
                                == id;
                        assert(closed.contains(HANDOFF_SLOT));
                        assert(!rest.appointments.contains_key(HANDOFF_SLOT));
                        assert(s != HANDOFF_SLOT);
                        assert(result.appointments.contains_key(s) && result.appointments[s].player_id
                            == id);
                    }
                }
            }
        },
        None => {
            let locked = if pre_locked.contains(HANDOFF_SLOT) {
                set![HANDOFF_SLOT]
            } else {
                Set::empty()
            };
            lemma_pool_accounts(pool, day, pre_locked, locked);
        },
    }
}

} // verus!
