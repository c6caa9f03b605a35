//! The day assigner: candidates are seated best score first, each in the
//! most popular slot of their list that is still free, or else in a slot
//! that a relocation chain can free.

use std::collections::{HashMap, HashSet};
use vstd::prelude::*;
use crate::parser::{entries_view, roster_view, AppointmentEntry, EntryView};
use super::census::ids_distinct;
use super::laws::{
    closed_stay_empty, law_no_double_booking, law_pre_locked_stay_empty, slots_recorded,
};
use super::move_chain::{
    apply_chain, apply_move_chain, board_of, chain_search, find_entry, find_move_chain, found_view,
    lookup_entry, players_distinct, search_space, SearchSpace,
};
use super::ordering::{as_ints, reorder, sorted_by_keys, stable_order_of};
use super::slot_utils::{
    calculate_slot_rankings, lists_slot, rank_of, ranking_of, slot_lists, slot_rankings,
};
use super::types::{
    appointments_view, strings_view, AppointmentView, Board, Day, DaySchedule, DayScheduleView,
    Move, MoveView, ScheduledAppointment,
};

verus! {

/// The longest relocation chain the assigner will commit.
pub const MAX_CHAIN_DEPTH: u32 = 5;

/// What stays fixed while a day's candidates are seated.
pub struct DayRules {
    /// The candidates that may be relocated, looked up by player id.
    pub roster: Seq<EntryView>,
    pub day: Day,
    /// Slot popularity.
    pub rankings: Map<u8, usize>,
    /// Slots whose occupant must stay.
    pub locked: Set<u8>,
    /// A slot that may only be contested with a strictly higher combined
    /// score, if the day has one.
    pub gate: Option<u8>,
}

/// Where a candidate ends up: the board afterwards, and whether they got a
/// seat.
pub struct Seating {
    pub board: Board,
    pub seated: bool,
}

/// The progress of a day's run.
pub struct RunState {
    pub board: Board,
    pub unassigned: Seq<Seq<char>>,
}

/// The popularity of each slot of `avail`, position by position.
pub open spec fn popularity_keys(avail: Seq<u8>, rankings: Map<u8, usize>) -> Seq<u64> {
    Seq::new(avail.len(), |i: int| rank_of(rankings, avail[i]) as u64)
}

/// A candidate's slots, most popular first; equally popular slots stay in
/// listed order.
pub open spec fn ranked_slots(avail: Seq<u8>, rankings: Map<u8, usize>) -> Seq<u8> {
    sorted_by_keys(avail, popularity_keys(avail, rankings), true)
}

/// The first slot of `slots`, from position `i` on, that is not taken.
pub open spec fn first_untaken_from(slots: Seq<u8>, i: int, used: Set<u8>) -> Option<u8>
    decreases slots.len() - i,
{
    if i < 0 || i >= slots.len() {
        None
    } else if !used.contains(slots[i]) {
        Some(slots[i])
    } else {
        first_untaken_from(slots, i + 1, used)
    }
}

/// A candidate's score in a contest for the gated slot: the construction
/// score, plus the research score for those who ask for research and
/// accept its first slot.
pub open spec fn combined_score(e: EntryView) -> u64 {
    (e.construction_score as u64 + if e.wants_research && e.research_available_slots.contains(1) {
        e.research_score as u64
    } else {
        0u64
    }) as u64
}

/// Whether `slot` is held by somebody the roster knows.
pub open spec fn is_blocked(roster: Seq<EntryView>, seats: Map<u8, AppointmentView>, slot: u8) -> bool {
    seats.contains_key(slot) && find_entry(roster, seats[slot].player_id).is_some()
}

/// The roster's record of the holder of a blocked slot.
pub open spec fn holder_of(
    roster: Seq<EntryView>,
    seats: Map<u8, AppointmentView>,
    slot: u8,
) -> EntryView {
    roster[find_entry(roster, seats[slot].player_id).unwrap()]
}

/// The blocked slots among `slots`, in the same order.
pub open spec fn blocked_slots(
    roster: Seq<EntryView>,
    seats: Map<u8, AppointmentView>,
    slots: Seq<u8>,
) -> Seq<u8>
    decreases slots.len(),
{
    if slots.len() == 0 {
        Seq::empty()
    } else {
        let init = blocked_slots(roster, seats, slots.drop_last());
        if is_blocked(roster, seats, slots.last()) {
            init.push(slots.last())
        } else {
            init
        }
    }
}

/// The score by which the holder of a blocked slot is ranked among the
/// holders: the priority score they are seated with.
pub open spec fn holder_key(seats: Map<u8, AppointmentView>, slot: u8) -> u64 {
    seats[slot].priority_score as u64
}

/// The keys of a list of blocked slots, position by position.
pub open spec fn holder_keys(seats: Map<u8, AppointmentView>, slots: Seq<u8>) -> Seq<u64> {
    Seq::new(slots.len(), |i: int| holder_key(seats, slots[i]))
}

/// The slots a candidate may try to take over: the slots of `ranked`
/// whose holder the roster knows, the holder with the lowest priority
/// score first; holders with equal scores stay in ranked order.
pub open spec fn steal_order(
    roster: Seq<EntryView>,
    seats: Map<u8, AppointmentView>,
    ranked: Seq<u8>,
) -> Seq<u8> {
    let blocked = blocked_slots(roster, seats, ranked);
    sorted_by_keys(blocked, holder_keys(seats, blocked), false)
}

/// Whether candidate `c` may contest `slot`: always, except at the gated
/// slot, where only a strictly higher combined score than the holder's
/// will do.
pub open spec fn gate_allows(rules: DayRules, seats: Map<u8, AppointmentView>, c: EntryView, slot: u8) -> bool {
    rules.gate == Some(slot) ==> combined_score(c) > combined_score(
        holder_of(rules.roster, seats, slot),
    )
}

/// The search space of a day's run on a given board.
pub open spec fn space_of(rules: DayRules, b: Board) -> SearchSpace {
    SearchSpace {
        roster: rules.roster,
        day: rules.day,
        seats: b.seats,
        used: b.used,
        locked: rules.locked,
        max_depth: MAX_CHAIN_DEPTH as nat,
    }
}

/// The chain by which `c` takes over `slot`, if `c` may contest it and
/// its holder can be relocated.
pub open spec fn steal_chain(rules: DayRules, b: Board, c: EntryView, slot: u8) -> Option<
    Seq<MoveView>,
> {
    if !is_blocked(rules.roster, b.seats, slot) || !gate_allows(rules, b.seats, c, slot) {
        None
    } else {
        let holder = b.seats[slot].player_id;
        chain_search(
            space_of(rules, b),
            holder,
            slot,
            rules.day.slots_spec(holder_of(rules.roster, b.seats, slot)),
            1,
            seq![holder],
        )
    }
}

/// The first position of `order`, from `i` on, whose slot `c` can take
/// over.
pub open spec fn first_steal_from(rules: DayRules, b: Board, c: EntryView, order: Seq<u8>, i: int) -> Option<
    int,
>
    decreases order.len() - i,
{
    if i < 0 || i >= order.len() {
        None
    } else if steal_chain(rules, b, c, order[i]).is_some() {
        Some(i)
    } else {
        first_steal_from(rules, b, c, order, i + 1)
    }
}

/// The board with `c` seated in `slot`.
pub open spec fn place(b: Board, day: Day, c: EntryView, slot: u8) -> Board {
    Board { seats: b.seats.insert(slot, day.seat_spec(c, slot)), used: b.used.insert(slot) }
}

/// The slot that candidate `c` gets on board `b`, if any: the most
/// popular free slot of their list or, where none is free, the first
/// slot, weakest holder first, that they can take over.
pub open spec fn chosen_slot(rules: DayRules, b: Board, c: EntryView) -> Option<u8> {
    let ranked = ranked_slots(rules.day.slots_spec(c), rules.rankings);
    match first_untaken_from(ranked, 0, b.used) {
        Some(slot) => Some(slot),
        None => {
            let order = steal_order(rules.roster, b.seats, ranked);
            match first_steal_from(rules, b, c, order, 0) {
                Some(i) => Some(order[i]),
                None => None,
            }
        },
    }
}

/// Seats one candidate.
///
/// A free slot is simply taken.  A held slot is taken over after the
/// chain that relocates its holder has been committed.  Where the
/// candidate gets no slot the board stays as it is.
pub open spec fn seat_candidate_spec(rules: DayRules, b: Board, c: EntryView) -> Seating {
    let ranked = ranked_slots(rules.day.slots_spec(c), rules.rankings);
    match chosen_slot(rules, b, c) {
        Some(slot) => if first_untaken_from(ranked, 0, b.used).is_some() {
            Seating { board: place(b, rules.day, c, slot), seated: true }
        } else {
            Seating {
                board: place(
                    apply_chain(b, steal_chain(rules, b, c, slot).unwrap()),
                    rules.day,
                    c,
                    slot,
                ),
                seated: true,
            }
        },
        None => Seating { board: b, seated: false },
    }
}

/// The state after the candidates of `queue` have been seated in turn.
pub open spec fn run_spec(rules: DayRules, start: RunState, queue: Seq<EntryView>) -> RunState
    decreases queue.len(),
{
    if queue.len() == 0 {
        start
    } else {
        let prev = run_spec(rules, start, queue.drop_last());
        let c = queue.last();
        let step = seat_candidate_spec(rules, prev.board, c);
        RunState {
            board: step.board,
            unassigned: if step.seated {
                prev.unassigned
            } else {
                prev.unassigned.push(c.player_id)
            },
        }
    }
}

/// The entries that take part in `day`, in the given order.
pub open spec fn candidates_of(entries: Seq<EntryView>, day: Day) -> Seq<EntryView>
    decreases entries.len(),
{
    if entries.len() == 0 {
        Seq::empty()
    } else {
        let init = candidates_of(entries.drop_last(), day);
        if day.is_candidate(entries.last()) {
            init.push(entries.last())
        } else {
            init
        }
    }
}

/// The day's priority score of each candidate, position by position.
pub open spec fn score_keys(pool: Seq<EntryView>, day: Day) -> Seq<u64> {
    Seq::new(pool.len(), |i: int| day.score_spec(pool[i]) as u64)
}

/// The day's slot list of each candidate, position by position.
pub open spec fn availability_lists(pool: Seq<EntryView>, day: Day) -> Seq<Seq<u8>> {
    Seq::new(pool.len(), |i: int| day.slots_spec(pool[i]))
}

/// The candidates best score first; equal scores stay in the given
/// order.
pub open spec fn by_score(pool: Seq<EntryView>, day: Day) -> Seq<EntryView> {
    sorted_by_keys(pool, score_keys(pool, day), true)
}

/// The rules of a plain day run over `pool`.
pub open spec fn pool_rules(pool: Seq<EntryView>, day: Day, locked: Set<u8>) -> DayRules {
    DayRules {
        roster: by_score(pool, day),
        day,
        rankings: slot_rankings(availability_lists(pool, day)),
        locked,
        gate: None,
    }
}

/// An empty board on which the slots of `pre_locked` count as taken.
pub open spec fn fresh_start(pre_locked: Set<u8>) -> RunState {
    RunState { board: Board { seats: Map::empty(), used: pre_locked }, unassigned: Seq::empty() }
}

/// The schedule of a pool of candidates for `day`.
pub open spec fn pool_schedule(
    pool: Seq<EntryView>,
    day: Day,
    pre_locked: Set<u8>,
    locked: Set<u8>,
) -> DayScheduleView {
    let end = run_spec(pool_rules(pool, day, locked), fresh_start(pre_locked), by_score(pool, day));
    DayScheduleView { appointments: end.board.seats, unassigned: end.unassigned }
}

/// The schedule of `day` for `entries`: of their candidates, seated best
/// score first, with the slots of `pre_locked` closed to them and the
/// occupants of `locked` slots protected from relocation.
pub open spec fn generic_schedule(
    entries: Seq<EntryView>,
    day: Day,
    pre_locked: Set<u8>,
    locked: Set<u8>,
) -> DayScheduleView {
    pool_schedule(candidates_of(entries, day), day, pre_locked, locked)
}

/// The rules that the given data stand for.
pub open spec fn rules_of(
    roster: Seq<&AppointmentEntry>,
    day: Day,
    rankings: Map<u8, usize>,
    locked: Set<u8>,
    gate: Option<u8>,
) -> DayRules {
    DayRules { roster: roster_view(roster), day, rankings, locked, gate }
}

/// Copies a set of slots.
pub fn copy_slots(slots: &HashSet<u8>) -> (copy: HashSet<u8>)
    ensures
        copy@ == slots@,
{
    let mut copy: HashSet<u8> = HashSet::new();
    let mut s: u16 = 0;
    while s < 256
        invariant
            s <= 256,
            forall|t: u8| copy@.contains(t) <==> slots@.contains(t) && t < s,
        decreases 256 - s,
    {
        let slot = s as u8;
        if slots.contains(&slot) {
            copy.insert(slot);
        }
        s += 1;
    }
    assert(copy@ =~= slots@);
    copy
}

/// Picks the items of `items` in the given order.
fn arrange_slots(items: &[u8], order: &Vec<usize>) -> (picked: Vec<u8>)
    requires
        forall|i: int| 0 <= i < order@.len() ==> #[trigger] order@[i] < items@.len(),
    ensures
        picked@ == reorder(items@, as_ints(order@)),
{
    let mut picked: Vec<u8> = Vec::new();
    let mut i: usize = 0;
    while i < order.len()
        invariant
            i <= order.len(),
            forall|k: int| 0 <= k < order@.len() ==> #[trigger] order@[k] < items@.len(),
            picked@ =~= reorder(items@, as_ints(order@)).take(i as int),
        decreases order.len() - i,
    {
        picked.push(items[order[i]]);
        i += 1;
    }
    assert(reorder(items@, as_ints(order@)).take(order@.len() as int) =~= reorder(
        items@,
        as_ints(order@),
    ));
    picked
}

/// Picks the entries of `items` in the given order.
fn arrange_entries<'a>(items: &[&'a AppointmentEntry], order: &Vec<usize>) -> (picked: Vec<
    &'a AppointmentEntry,
>)
    requires
        forall|i: int| 0 <= i < order@.len() ==> #[trigger] order@[i] < items@.len(),
    ensures
        roster_view(picked@) == reorder(roster_view(items@), as_ints(order@)),
{
    let mut picked: Vec<&'a AppointmentEntry> = Vec::new();
    let mut i: usize = 0;
    while i < order.len()
        invariant
            i <= order.len(),
            forall|k: int| 0 <= k < order@.len() ==> #[trigger] order@[k] < items@.len(),
            picked@.len() == i,
            roster_view(picked@) =~= reorder(roster_view(items@), as_ints(order@)).take(i as int),
        decreases order.len() - i,
    {
        let ghost before = roster_view(picked@);
        picked.push(items[order[i]]);
        proof {
            let target = reorder(roster_view(items@), as_ints(order@)).take(i + 1);
            assert forall|k: int| 0 <= k < i + 1 implies roster_view(picked@)[k] == target[k] by {
                if k < i {
                    assert(roster_view(picked@)[k] == before[k]);
                }
            }
        }
        i += 1;
    }
    assert(reorder(roster_view(items@), as_ints(order@)).take(order@.len() as int) =~= reorder(
        roster_view(items@),
        as_ints(order@),
    ));
    picked
}

/// Ranks a candidate's slots, most popular first.
pub fn rank_slots(avail: &[u8], rankings: &HashMap<u8, usize>) -> (ranked: Vec<u8>)
    ensures
        ranked@ == ranked_slots(avail@, rankings@),
{
    let mut keys: Vec<u64> = Vec::new();
    let mut i: usize = 0;
    while i < avail.len()
        invariant
            i <= avail.len(),
            keys@ =~= popularity_keys(avail@, rankings@).take(i as int),
        decreases avail.len() - i,
    {
        keys.push(ranking_of(rankings, avail[i]) as u64);
        i += 1;
    }
    assert(popularity_keys(avail@, rankings@).take(avail@.len() as int) =~= popularity_keys(
        avail@,
        rankings@,
    ));
    let order = stable_order_of(&keys, true);
    arrange_slots(avail, &order)
}

/// Orders the candidates best score first.
pub fn sort_by_score<'a>(pool: &[&'a AppointmentEntry], day: Day) -> (sorted: Vec<
    &'a AppointmentEntry,
>)
    ensures
        roster_view(sorted@) == by_score(roster_view(pool@), day),
{
    let mut keys: Vec<u64> = Vec::new();
    let mut i: usize = 0;
    while i < pool.len()
        invariant
            i <= pool.len(),
            keys@ =~= score_keys(roster_view(pool@), day).take(i as int),
        decreases pool.len() - i,
    {
        keys.push(day.priority_score(pool[i]) as u64);
        i += 1;
    }
    assert(score_keys(roster_view(pool@), day).take(pool@.len() as int) =~= score_keys(
        roster_view(pool@),
        day,
    ));
    let order = stable_order_of(&keys, true);
    arrange_entries(pool, &order)
}

/// Computes a candidate's combined score.
pub fn combined_score_of(e: &AppointmentEntry) -> (r: u64)
    ensures
        r == combined_score(e@),
{
    let bonus: u64 = if e.wants_research && lists_slot(e.research_available_slots.as_slice(), 1) {
        e.research_score as u64
    } else {
        0
    };
    e.construction_score as u64 + bonus
}

/// Whether `gate` names `slot`.
fn gate_is(gate: Option<u8>, slot: u8) -> (r: bool)
    ensures
        r == (gate == Some(slot)),
{
    match gate {
        Some(g) => g == slot,
        None => false,
    }
}

/// Lists the slots among `ranked` that a candidate may try to take over,
/// weakest holder first.
pub fn steal_targets(
    roster: &[&AppointmentEntry],
    schedule: &HashMap<u8, ScheduledAppointment>,
    ranked: &[u8],
) -> (targets: Vec<u8>)
    ensures
        targets@ == steal_order(roster_view(roster@), appointments_view(schedule@), ranked@),
{
    let ghost known = roster_view(roster@);
    let ghost seats = appointments_view(schedule@);
    let mut blocked: Vec<u8> = Vec::new();
    let mut keys: Vec<u64> = Vec::new();
    let mut i: usize = 0;
    assert(ranked@.take(0) =~= Seq::<u8>::empty());
    while i < ranked.len()
        invariant
            i <= ranked.len(),
            known == roster_view(roster@),
            seats == appointments_view(schedule@),
            blocked@ == blocked_slots(known, seats, ranked@.take(i as int)),
            keys@ =~= holder_keys(seats, blocked@),
        decreases ranked.len() - i,
    {
        let slot = ranked[i];
        proof {
            assert(ranked@.take(i + 1).drop_last() =~= ranked@.take(i as int));
            assert(ranked@.take(i + 1).last() == slot);
        }
        match schedule.get(&slot) {
            Some(holder) => {
                match lookup_entry(roster, &holder.player_id) {
                    Some(_) => {
                        blocked.push(slot);
                        keys.push(holder.priority_score as u64);
                    },
                    None => {},
                }
            },
            None => {},
        }
        i += 1;
    }
    assert(ranked@.take(ranked@.len() as int) =~= ranked@);
    let order = stable_order_of(&keys, false);
    arrange_slots(blocked.as_slice(), &order)
}

/// Seats one candidate on the board, as [`seat_candidate_spec`] defines,
/// and tells whether they got a seat.
pub fn seat_candidate(
    roster: &[&AppointmentEntry],
    day: Day,
    rankings: &HashMap<u8, usize>,
    locked: &HashSet<u8>,
    gate: Option<u8>,
    schedule: &mut HashMap<u8, ScheduledAppointment>,
    used_slots: &mut HashSet<u8>,
    entry: &AppointmentEntry,
) -> (seated: bool)
    ensures
        board_of(final(schedule)@, final(used_slots)@) == seat_candidate_spec(
            rules_of(roster@, day, rankings@, locked@, gate),
            board_of(old(schedule)@, old(used_slots)@),
            entry@,
        ).board,
        seated == seat_candidate_spec(
            rules_of(roster@, day, rankings@, locked@, gate),
            board_of(old(schedule)@, old(used_slots)@),
            entry@,
        ).seated,
{
    let ghost rules = rules_of(roster@, day, rankings@, locked@, gate);
    let ghost start = board_of(schedule@, used_slots@);
    let ranked = rank_slots(day.available_slots(entry).as_slice(), rankings);
    let mut i: usize = 0;
    while i < ranked.len()
        invariant
            i <= ranked.len(),
            rules == rules_of(roster@, day, rankings@, locked@, gate),
            start == board_of(schedule@, used_slots@),
            start == board_of(old(schedule)@, old(used_slots)@),
            ranked@ == ranked_slots(day.slots_spec(entry@), rankings@),
            first_untaken_from(ranked@, 0, start.used) == first_untaken_from(
                ranked@,
                i as int,
                start.used,
            ),
        decreases ranked.len() - i,
    {
        let slot = ranked[i];
        if !used_slots.contains(&slot) {
            schedule.insert(slot, day.seat(entry, slot));
            used_slots.insert(slot);
            proof {
                assert(appointments_view(schedule@) =~= place(start, day, entry@, slot).seats);
            }
            return true;
        }
        i += 1;
    }
    let targets = steal_targets(roster, schedule, ranked.as_slice());
    let mut t: usize = 0;
    while t < targets.len()
        invariant
            t <= targets.len(),
            rules == rules_of(roster@, day, rankings@, locked@, gate),
            start == board_of(schedule@, used_slots@),
            start == board_of(old(schedule)@, old(used_slots)@),
            ranked@ == ranked_slots(day.slots_spec(entry@), rankings@),
            first_untaken_from(ranked@, 0, start.used).is_none(),
            targets@ == steal_order(rules.roster, start.seats, ranked@),
            first_steal_from(rules, start, entry@, targets@, 0) == first_steal_from(
                rules,
                start,
                entry@,
                targets@,
                t as int,
            ),
        decreases targets.len() - t,
    {
        let slot = targets[t];
        let mut found: Option<Vec<Move>> = None;
        match schedule.get(&slot) {
            Some(holder) => {
                match lookup_entry(roster, &holder.player_id) {
                    Some(k) => {
                        let holder_entry = roster[k];
                        let allowed = if gate_is(gate, slot) {
                            combined_score_of(entry) > combined_score_of(holder_entry)
                        } else {
                            true
                        };
                        if allowed {
                            let mut visited: Vec<String> = Vec::new();
                            visited.push(holder.player_id.clone());
                            proof {
                                assert(strings_view(visited@) =~= seq![holder.player_id@]);
                                assert(space_of(rules, start) == search_space(
                                    roster@,
                                    day,
                                    schedule@,
                                    used_slots@,
                                    locked@,
                                    MAX_CHAIN_DEPTH,
                                ));
                            }
                            found = find_move_chain(
                                holder.player_id.as_str(),
                                slot,
                                day.available_slots(holder_entry).as_slice(),
                                schedule,
                                used_slots,
                                roster,
                                day,
                                1,
                                MAX_CHAIN_DEPTH,
                                &mut visited,
                                locked,
                            );
                        }
                    },
                    None => {},
                }
            },
            None => {},
        }
        assert(found_view(found) == steal_chain(rules, start, entry@, slot));
        match found {
            Some(chain) => {
                apply_move_chain(chain.as_slice(), schedule, used_slots);
                let ghost moved = board_of(schedule@, used_slots@);
                schedule.insert(slot, day.seat(entry, slot));
                used_slots.insert(slot);
                proof {
                    assert(appointments_view(schedule@) =~= place(moved, day, entry@, slot).seats);
                }
                return true;
            },
            None => {},
        }
        t += 1;
    }
    false
}

/// The run state that the given data stand for.
pub open spec fn run_state_of(
    schedule: Map<u8, ScheduledAppointment>,
    used: Set<u8>,
    unassigned: Seq<String>,
) -> RunState {
    RunState { board: board_of(schedule, used), unassigned: strings_view(unassigned) }
}

/// Borrows every entry of a list.
pub fn borrow_all<'a>(entries: &'a [AppointmentEntry]) -> (refs: Vec<&'a AppointmentEntry>)
    ensures
        roster_view(refs@) == entries_view(entries@),
{
    let mut refs: Vec<&'a AppointmentEntry> = Vec::new();
    let mut i: usize = 0;
    while i < entries.len()
        invariant
            i <= entries.len(),
            refs@.len() == i,
            roster_view(refs@) =~= entries_view(entries@).take(i as int),
        decreases entries.len() - i,
    {
        let ghost before = roster_view(refs@);
        refs.push(&entries[i]);
        proof {
            let target = entries_view(entries@).take(i + 1);
            assert forall|k: int| 0 <= k < i + 1 implies roster_view(refs@)[k] == target[k] by {
                if k < i {
                    assert(roster_view(refs@)[k] == before[k]);
                }
            }
        }
        i += 1;
    }
    assert(entries_view(entries@).take(entries@.len() as int) =~= entries_view(entries@));
    refs
}

/// Selects the entries that take part in `day`.
pub fn gather_candidates<'a>(entries: &[&'a AppointmentEntry], day: Day) -> (pool: Vec<
    &'a AppointmentEntry,
>)
    ensures
        roster_view(pool@) == candidates_of(roster_view(entries@), day),
{
    let ghost all = roster_view(entries@);
    let mut pool: Vec<&'a AppointmentEntry> = Vec::new();
    let mut i: usize = 0;
    assert(all.take(0) =~= Seq::<EntryView>::empty());
    while i < entries.len()
        invariant
            i <= entries.len(),
            all == roster_view(entries@),
            roster_view(pool@) =~= candidates_of(all.take(i as int), day),
        decreases entries.len() - i,
    {
        let ghost before = roster_view(pool@);
        proof {
            assert(all.take(i + 1).drop_last() =~= all.take(i as int));
            assert(all.take(i + 1).last() == entries@[i as int]@);
        }
        if day.is_participant(entries[i]) {
            pool.push(entries[i]);
            assert(roster_view(pool@) =~= before.push(entries@[i as int]@));
        }
        i += 1;
    }
    assert(all.take(all.len() as int) =~= all);
    pool
}

/// Collects the day's slot list of each candidate.
pub fn availability_of(pool: &[&AppointmentEntry], day: Day) -> (lists: Vec<Vec<u8>>)
    ensures
        slot_lists(lists@) == availability_lists(roster_view(pool@), day),
{
    let mut lists: Vec<Vec<u8>> = Vec::new();
    let mut i: usize = 0;
    while i < pool.len()
        invariant
            i <= pool.len(),
            lists@.len() == i,
            slot_lists(lists@) =~= availability_lists(roster_view(pool@), day).take(i as int),
        decreases pool.len() - i,
    {
        let ghost before = slot_lists(lists@);
        let list = day.available_slots(pool[i]).clone();
        assert(list@ =~= day.slots_spec(pool@[i as int]@));
        lists.push(list);
        proof {
            let target = availability_lists(roster_view(pool@), day).take(i + 1);
            assert forall|k: int| 0 <= k < i + 1 implies slot_lists(lists@)[k] == target[k] by {
                if k < i {
                    assert(slot_lists(lists@)[k] == before[k]);
                }
            }
        }
        i += 1;
    }
    assert(availability_lists(roster_view(pool@), day).take(pool@.len() as int)
        =~= availability_lists(roster_view(pool@), day));
    lists
}

/// Seats the candidates of `queue` in turn and notes those left without a
/// seat.
pub fn run_queue(
    roster: &[&AppointmentEntry],
    day: Day,
    rankings: &HashMap<u8, usize>,
    locked: &HashSet<u8>,
    gate: Option<u8>,
    schedule: &mut HashMap<u8, ScheduledAppointment>,
    used_slots: &mut HashSet<u8>,
    unassigned: &mut Vec<String>,
    queue: &[&AppointmentEntry],
)
    ensures
        run_state_of(final(schedule)@, final(used_slots)@, final(unassigned)@) == run_spec(
            rules_of(roster@, day, rankings@, locked@, gate),
            run_state_of(old(schedule)@, old(used_slots)@, old(unassigned)@),
            roster_view(queue@),
        ),
{
    let ghost rules = rules_of(roster@, day, rankings@, locked@, gate);
    let ghost start = run_state_of(schedule@, used_slots@, unassigned@);
    let ghost line = roster_view(queue@);
    let mut i: usize = 0;
    assert(line.take(0) =~= Seq::<EntryView>::empty());
    while i < queue.len()
        invariant
            i <= queue.len(),
            rules == rules_of(roster@, day, rankings@, locked@, gate),
            line == roster_view(queue@),
            run_state_of(schedule@, used_slots@, unassigned@) == run_spec(
                rules,
                start,
                line.take(i as int),
            ),
        decreases queue.len() - i,
    {
        let entry = queue[i];
        let ghost noted = strings_view(unassigned@);
        proof {
            assert(line.take(i + 1).drop_last() =~= line.take(i as int));
            assert(line.take(i + 1).last() == entry@);
        }
        let seated = seat_candidate(roster, day, rankings, locked, gate, schedule, used_slots, entry);
        if !seated {
            unassigned.push(entry.player_id.clone());
            assert(strings_view(unassigned@) =~= noted.push(entry@.player_id));
        }
        i += 1;
    }
    assert(line.take(line.len() as int) =~= line);
}

/// Schedules a pool of candidates for `day`.
pub fn schedule_pool(
    pool: &[&AppointmentEntry],
    day: Day,
    pre_locked_slots: &HashSet<u8>,
    locked_slots: &HashSet<u8>,
) -> (result: DaySchedule)
    ensures
        result@ == pool_schedule(roster_view(pool@), day, pre_locked_slots@, locked_slots@),
{
    let lists = availability_of(pool, day);
    let rankings = calculate_slot_rankings(lists.as_slice());
    let sorted = sort_by_score(pool, day);
    let mut schedule: HashMap<u8, ScheduledAppointment> = HashMap::new();
    let mut used_slots = copy_slots(pre_locked_slots);
    let mut unassigned: Vec<String> = Vec::new();
    proof {
        assert(appointments_view(schedule@) =~= Map::<u8, AppointmentView>::empty());
        assert(strings_view(unassigned@) =~= Seq::<Seq<char>>::empty());
    }
    run_queue(
        sorted.as_slice(),
        day,
        &rankings,
        locked_slots,
        None,
        &mut schedule,
        &mut used_slots,
        &mut unassigned,
        sorted.as_slice(),
    );
    DaySchedule { appointments: schedule, unassigned }
}

/// Schedules one day for borrowed entries: those that ask for the day
/// and list a slot are seated best score first.  The slots of
/// `pre_locked_slots` are closed to them; the occupants of `locked_slots`
/// are never relocated.
pub fn schedule_day_refs(
    entries: &[&AppointmentEntry],
    day: Day,
    pre_locked_slots: &HashSet<u8>,
    locked_slots: &HashSet<u8>,
) -> (result: DaySchedule)
    ensures
        result@ == generic_schedule(roster_view(entries@), day, pre_locked_slots@, locked_slots@),
        slots_recorded(result@.appointments),
        closed_stay_empty(result@.appointments, pre_locked_slots@),
        ids_distinct(roster_view(entries@)) ==> players_distinct(result@.appointments),
{
    proof {
        law_no_double_booking(roster_view(entries@), day, pre_locked_slots@, locked_slots@);
        law_pre_locked_stay_empty(roster_view(entries@), day, pre_locked_slots@, locked_slots@);
    }
    let pool = gather_candidates(entries, day);
    schedule_pool(pool.as_slice(), day, pre_locked_slots, locked_slots)
}

/// Schedules one day: the entries that ask for the day and list a slot
/// are seated best score first.  The slots of `pre_locked_slots` are
/// closed to them; the occupants of `locked_slots` are never relocated.
pub fn schedule_day_generic_with_locked_slots(
    entries: &[AppointmentEntry],
    day: Day,
    pre_locked_slots: &HashSet<u8>,
    locked_slots: &HashSet<u8>,
) -> (result: DaySchedule)
    ensures
        result@ == generic_schedule(entries_view(entries@), day, pre_locked_slots@, locked_slots@),
        slots_recorded(result@.appointments),
        closed_stay_empty(result@.appointments, pre_locked_slots@),
        ids_distinct(entries_view(entries@)) ==> players_distinct(result@.appointments),
{
    let refs = borrow_all(entries);
    schedule_day_refs(refs.as_slice(), day, pre_locked_slots, locked_slots)
}

/// Schedules one day with every slot open and nobody protected.
pub fn schedule_day_generic(entries: &[AppointmentEntry], day: Day) -> (result: DaySchedule)
    ensures
        result@ == generic_schedule(
            entries_view(entries@),
            day,
            Set::<u8>::empty(),
            Set::<u8>::empty(),
        ),
        slots_recorded(result@.appointments),
        ids_distinct(entries_view(entries@)) ==> players_distinct(result@.appointments),
{
    let none: HashSet<u8> = HashSet::new();
    schedule_day_generic_with_locked_slots(entries, day, &none, &none)
}

/// The candidates of `pool` other than player `id`, in the same order.
pub open spec fn without_player(pool: Seq<EntryView>, id: Seq<char>) -> Seq<EntryView>
    decreases pool.len(),
{
    if pool.len() == 0 {
        Seq::empty()
    } else {
        let init = without_player(pool.drop_last(), id);
        if pool.last().player_id != id {
            init.push(pool.last())
        } else {
            init
        }
    }
}

/// Leaves player `id` out of `pool`.
pub fn drop_player<'a>(pool: &[&'a AppointmentEntry], id: &String) -> (rest: Vec<
    &'a AppointmentEntry,
>)
    ensures
        roster_view(rest@) == without_player(roster_view(pool@), id@),
{
    let ghost all = roster_view(pool@);
    let mut rest: Vec<&'a AppointmentEntry> = Vec::new();
    let mut i: usize = 0;
    assert(all.take(0) =~= Seq::<EntryView>::empty());
    while i < pool.len()
        invariant
            i <= pool.len(),
            all == roster_view(pool@),
            roster_view(rest@) =~= without_player(all.take(i as int), id@),
        decreases pool.len() - i,
    {
        let ghost before = roster_view(rest@);
        proof {
            assert(all.take(i + 1).drop_last() =~= all.take(i as int));
            assert(all.take(i + 1).last() == pool@[i as int]@);
        }
        if pool[i].player_id != *id {
            rest.push(pool[i]);
            assert(roster_view(rest@) =~= before.push(pool@[i as int]@));
        }
        i += 1;
    }
    assert(all.take(all.len() as int) =~= all);
    rest
}

/// The highest key of `m` below `n`.
pub open spec fn highest_key_below<V>(m: Map<u8, V>, n: int) -> Option<u8>
    decreases n,
{
    if n <= 0 {
        None
    } else if m.contains_key((n - 1) as u8) {
        Some((n - 1) as u8)
    } else {
        highest_key_below(m, n - 1)
    }
}

/// The highest key of `m`.
pub open spec fn highest_key<V>(m: Map<u8, V>) -> Option<u8> {
    highest_key_below(m, 256)
}

/// The highest key is a key, and no key lies above it.
pub proof fn lemma_highest_key<V>(m: Map<u8, V>, n: int)
    requires
        0 <= n <= 256,
    ensures
        match highest_key_below(m, n) {
            Some(top) => m.contains_key(top) && top < n && forall|s: u8|
                m.contains_key(s) && s < n ==> s <= top,
            None => forall|s: u8| m.contains_key(s) ==> s >= n,
        },
    decreases n,
{
    if n > 0 && !m.contains_key((n - 1) as u8) {
        lemma_highest_key(m, n - 1);
    }
}

/// Finds the highest key of `m`.
pub fn highest_key_of<V>(m: &HashMap<u8, V>) -> (top: Option<u8>)
    ensures
        top == highest_key(m@),
{
    let mut n: u16 = 256;
    while n > 0
        invariant
            n <= 256,
            highest_key(m@) == highest_key_below(m@, n as int),
        decreases n,
    {
        let s = (n - 1) as u8;
        if m.contains_key(&s) {
            return Some(s);
        }
        n -= 1;
    }
    None
}

} // verus!
