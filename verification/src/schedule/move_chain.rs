//! Relocation chains: the bounded search that frees a contested slot, and
//! the step that commits a chain to the board.

use std::collections::{HashMap, HashSet};
use vstd::prelude::*;
use crate::parser::{roster_view, AppointmentEntry, EntryView};
use super::types::{
    appointments_view, moves_view, strings_view, AppointmentView, Board, Day, Move, MoveView,
    ScheduledAppointment,
};

verus! {

/// Everything a chain search reads and never changes.
pub struct SearchSpace {
    /// The candidates that may be relocated, looked up by player id.
    pub roster: Seq<EntryView>,
    pub day: Day,
    pub seats: Map<u8, AppointmentView>,
    pub used: Set<u8>,
    /// Slots whose occupant must stay.
    pub locked: Set<u8>,
    pub max_depth: nat,
}

/// The position in `roster` of the record for `id`: the last one, where
/// several carry the same id.
pub open spec fn find_entry(roster: Seq<EntryView>, id: Seq<char>) -> Option<int>
    decreases roster.len(),
{
    if roster.len() == 0 {
        None
    } else if roster.last().player_id == id {
        Some(roster.len() - 1)
    } else {
        find_entry(roster.drop_last(), id)
    }
}

/// The first slot of `avail`, from position `i` on, that differs from
/// `current` and is not taken.
pub open spec fn first_free_from(avail: Seq<u8>, i: int, current: u8, used: Set<u8>) -> Option<u8>
    decreases avail.len() - i,
{
    if i < 0 || i >= avail.len() {
        None
    } else if avail[i] != current && !used.contains(avail[i]) {
        Some(avail[i])
    } else {
        first_free_from(avail, i + 1, current, used)
    }
}

/// The chain that relocates `player`, who sits in `current` and accepts the
/// slots `avail`, or `None` where the search finds none.
///
/// The search gives up beyond `max_depth` and never moves anyone out of a
/// locked slot.  A free slot among `avail` ends it with a single move.
/// Otherwise the occupied slots of `avail` are tried in listed order, each
/// by relocating its occupant one level deeper; occupants in `visited` are
/// passed over.
pub open spec fn chain_search(
    sp: SearchSpace,
    player: Seq<char>,
    current: u8,
    avail: Seq<u8>,
    depth: nat,
    visited: Seq<Seq<char>>,
) -> Option<Seq<MoveView>>
    decreases sp.max_depth + 1 - depth, 1int, 0int,
{
    if depth > sp.max_depth || sp.locked.contains(current) {
        None
    } else {
        match first_free_from(avail, 0, current, sp.used) {
            Some(slot) => Some(
                seq![MoveView { player_id: player, from_slot: current, to_slot: slot }],
            ),
            None => chain_scan(sp, player, current, avail, 0, depth, visited),
        }
    }
}

/// The part of [`chain_search`] that tries the occupied slots of `avail`
/// from position `i` on.
pub open spec fn chain_scan(
    sp: SearchSpace,
    player: Seq<char>,
    current: u8,
    avail: Seq<u8>,
    i: int,
    depth: nat,
    visited: Seq<Seq<char>>,
) -> Option<Seq<MoveView>>
    decreases sp.max_depth + 1 - depth, 0int, avail.len() - i,
{
    if depth > sp.max_depth || i < 0 || i >= avail.len() {
        None
    } else {
        let target = avail[i];
        let rest = chain_scan(sp, player, current, avail, i + 1, depth, visited);
        if target == current || !sp.seats.contains_key(target) || sp.locked.contains(target) {
            rest
        } else {
            let occupant = sp.seats[target].player_id;
            if visited.contains(occupant) {
                rest
            } else {
                match find_entry(sp.roster, occupant) {
                    None => rest,
                    Some(k) => match chain_search(
                        sp,
                        occupant,
                        target,
                        sp.day.slots_spec(sp.roster[k]),
                        depth + 1,
                        visited.push(occupant),
                    ) {
                        Some(sub) => Some(
                            seq![
                                MoveView { player_id: player, from_slot: current, to_slot: target },
                            ] + sub,
                        ),
                        None => rest,
                    },
                }
            }
        }
    }
}

/// The players of a chain, move by move.
pub open spec fn chain_players(chain: Seq<MoveView>) -> Seq<Seq<char>> {
    Seq::new(chain.len(), |i: int| chain[i].player_id)
}

/// The visited list a search leaves behind: unchanged after a failure;
/// after a success, extended by every player of the chain but the first.
pub open spec fn visited_after(visited: Seq<Seq<char>>, found: Option<Seq<MoveView>>) -> Seq<
    Seq<char>,
> {
    match found {
        None => visited,
        Some(chain) => visited + chain_players(chain).skip(1),
    }
}

/// What holds of every chain that a search for `player` in `current`
/// returns at `depth` with `visited`.
pub open spec fn chain_sound(
    sp: SearchSpace,
    player: Seq<char>,
    current: u8,
    depth: nat,
    visited: Seq<Seq<char>>,
    chain: Seq<MoveView>,
) -> bool {
    &&& 1 <= chain.len()
    &&& chain.len() + depth <= sp.max_depth + 1
    &&& chain[0].player_id == player
    &&& chain[0].from_slot == current
    &&& forall|i: int| 0 <= i < chain.len() ==> !sp.locked.contains(#[trigger] chain[i].from_slot)
    &&& forall|i: int|
        0 <= i < chain.len() ==> (#[trigger] chain[i]).to_slot != chain[i].from_slot
    &&& forall|i: int|
        1 <= i < chain.len() ==> sp.seats.contains_key((#[trigger] chain[i]).from_slot)
            && sp.seats[chain[i].from_slot].player_id == chain[i].player_id
    &&& forall|i: int|
        0 <= i < chain.len() - 1 ==> (#[trigger] chain[i]).to_slot == chain[i + 1].from_slot
    &&& !sp.used.contains(chain.last().to_slot)
    &&& forall|i: int| 1 <= i < chain.len() ==> !visited.contains((#[trigger] chain[i]).player_id)
    &&& forall|i: int, j: int|
        1 <= i < j < chain.len() ==> (#[trigger] chain[i]).player_id != (
        #[trigger] chain[j]).player_id
}

proof fn lemma_first_free(avail: Seq<u8>, i: int, current: u8, used: Set<u8>)
    ensures
        match first_free_from(avail, i, current, used) {
            Some(slot) => slot != current && !used.contains(slot),
            None => true,
        },
    decreases avail.len() - i,
{
    if 0 <= i < avail.len() && !(avail[i] != current && !used.contains(avail[i])) {
        lemma_first_free(avail, i + 1, current, used);
    }
}

/// Every chain the search returns is sound.
pub proof fn lemma_chain_search(
    sp: SearchSpace,
    player: Seq<char>,
    current: u8,
    avail: Seq<u8>,
    depth: nat,
    visited: Seq<Seq<char>>,
)
    ensures
        match chain_search(sp, player, current, avail, depth, visited) {
            Some(chain) => chain_sound(sp, player, current, depth, visited, chain),
            None => true,
        },
    decreases sp.max_depth + 1 - depth, 1int, 0int,
{
    if !(depth > sp.max_depth || sp.locked.contains(current)) {
        lemma_first_free(avail, 0, current, sp.used);
        match first_free_from(avail, 0, current, sp.used) {
            Some(slot) => {},
            None => {
                lemma_chain_scan(sp, player, current, avail, 0, depth, visited);
            },
        }
    }
}

/// A chain found from depth one on has at most `max_depth` moves.
pub proof fn law_chain_within_depth(
    sp: SearchSpace,
    player: Seq<char>,
    current: u8,
    avail: Seq<u8>,
    depth: nat,
    visited: Seq<Seq<char>>,
)
    requires
        depth >= 1,
        chain_search(sp, player, current, avail, depth, visited).is_some(),
    ensures
        chain_search(sp, player, current, avail, depth, visited).unwrap().len() <= sp.max_depth,
{
    lemma_chain_search(sp, player, current, avail, depth, visited);
}

/// Where the player to relocate is on the visited list, as the assigner has
/// it, no player occurs twice in the chain.
pub proof fn law_chain_no_player_twice(
    sp: SearchSpace,
    player: Seq<char>,
    current: u8,
    avail: Seq<u8>,
    depth: nat,
    visited: Seq<Seq<char>>,
)
    requires
        visited.contains(player),
        chain_search(sp, player, current, avail, depth, visited).is_some(),
    ensures
        forall|i: int, j: int|
            0 <= i < j < chain_search(sp, player, current, avail, depth, visited).unwrap().len()
                ==> (#[trigger] chain_search(
                sp,
                player,
                current,
                avail,
                depth,
                visited,
            ).unwrap()[i]).player_id != (#[trigger] chain_search(
                sp,
                player,
                current,
                avail,
                depth,
                visited,
            ).unwrap()[j]).player_id,
{
    lemma_chain_search(sp, player, current, avail, depth, visited);
    let chain = chain_search(sp, player, current, avail, depth, visited).unwrap();
    assert forall|i: int, j: int| 0 <= i < j < chain.len() implies (#[trigger] chain[i]).player_id
        != (#[trigger] chain[j]).player_id by {
        if i == 0 {
            assert(!visited.contains(chain[j].player_id));
        }
    }
}

/// No move of a chain leaves a locked slot.
pub proof fn law_chain_leaves_no_locked_slot(
    sp: SearchSpace,
    player: Seq<char>,
    current: u8,
    avail: Seq<u8>,
    depth: nat,
    visited: Seq<Seq<char>>,
)
    requires
        chain_search(sp, player, current, avail, depth, visited).is_some(),
    ensures
        forall|i: int|
            0 <= i < chain_search(sp, player, current, avail, depth, visited).unwrap().len()
                ==> !sp.locked.contains(
                (#[trigger] chain_search(
                    sp,
                    player,
                    current,
                    avail,
                    depth,
                    visited,
                ).unwrap()[i]).from_slot,
            ),
{
    lemma_chain_search(sp, player, current, avail, depth, visited);
}

proof fn lemma_chain_scan(
    sp: SearchSpace,
    player: Seq<char>,
    current: u8,
    avail: Seq<u8>,
    i: int,
    depth: nat,
    visited: Seq<Seq<char>>,
)
    requires
        !sp.locked.contains(current),
    ensures
        match chain_scan(sp, player, current, avail, i, depth, visited) {
            Some(chain) => chain_sound(sp, player, current, depth, visited, chain),
            None => true,
        },
    decreases sp.max_depth + 1 - depth, 0int, avail.len() - i,
{
    if !(depth > sp.max_depth || i < 0 || i >= avail.len()) {
        let target = avail[i];
        lemma_chain_scan(sp, player, current, avail, i + 1, depth, visited);
        if !(target == current || !sp.seats.contains_key(target) || sp.locked.contains(target)) {
            let occupant = sp.seats[target].player_id;
            if !visited.contains(occupant) {
                match find_entry(sp.roster, occupant) {
                    None => {},
                    Some(k) => {
                        let inner = visited.push(occupant);
                        let slots = sp.day.slots_spec(sp.roster[k]);
                        lemma_chain_search(sp, occupant, target, slots, depth + 1, inner);
                        match chain_search(sp, occupant, target, slots, depth + 1, inner) {
                            Some(sub) => {
                                let head = MoveView {
                                    player_id: player,
                                    from_slot: current,
                                    to_slot: target,
                                };
                                let chain = seq![head] + sub;
                                assert(chain[0] == head);
                                assert forall|j: int| 1 <= j < chain.len() implies #[trigger] chain[j]
                                    == sub[j - 1] by {}
                                assert(chain.last() == sub.last());
                                assert forall|j: int| 1 <= j < chain.len() implies !visited.contains(
                                    (#[trigger] chain[j]).player_id,
                                ) by {
                                    if j >= 2 {
                                        let id = sub[j - 1].player_id;
                                        assert(!inner.contains(id));
                                        if visited.contains(id) {
                                            let w = choose|w: int|
                                                0 <= w < visited.len() && visited[w] == id;
                                            assert(inner[w] == id);
                                        }
                                    }
                                }
                                assert forall|a: int, b: int|
                                    1 <= a < b < chain.len() implies (#[trigger] chain[a]).player_id
                                    != (#[trigger] chain[b]).player_id by {
                                    if a == 1 {
                                        let id = sub[b - 1].player_id;
                                        assert(!inner.contains(id));
                                        assert(inner[visited.len() as int] == occupant);
                                    } else {
                                        assert(sub[a - 1].player_id != sub[b - 1].player_id);
                                    }
                                }
                                assert(chain_sound(sp, player, current, depth, visited, chain));
                            },
                            None => {},
                        }
                    },
                }
            }
        }
    }
}

/// The record of player `id` in the roster has `slot` on its list for the
/// day.
pub open spec fn lists_slot_of(sp: SearchSpace, id: Seq<char>, slot: u8) -> bool {
    match find_entry(sp.roster, id) {
        Some(k) => sp.day.slots_spec(sp.roster[k]).contains(slot),
        None => false,
    }
}

/// Every move but the first goes to a slot that the roster's record of the
/// moved player lists; the first goes to a slot of `avail`.
pub open spec fn chain_listed(sp: SearchSpace, avail: Seq<u8>, chain: Seq<MoveView>) -> bool {
    &&& chain.len() >= 1 ==> avail.contains(chain[0].to_slot)
    &&& forall|i: int|
        1 <= i < chain.len() ==> lists_slot_of(
            sp,
            (#[trigger] chain[i]).player_id,
            chain[i].to_slot,
        )
}

proof fn lemma_first_free_listed(avail: Seq<u8>, i: int, current: u8, used: Set<u8>)
    ensures
        match first_free_from(avail, i, current, used) {
            Some(slot) => avail.contains(slot),
            None => true,
        },
    decreases avail.len() - i,
{
    if 0 <= i < avail.len() && !(avail[i] != current && !used.contains(avail[i])) {
        lemma_first_free_listed(avail, i + 1, current, used);
    }
}

/// Every chain the search returns moves its players to slots they list.
pub proof fn lemma_chain_listed(
    sp: SearchSpace,
    player: Seq<char>,
    current: u8,
    avail: Seq<u8>,
    depth: nat,
    visited: Seq<Seq<char>>,
)
    ensures
        match chain_search(sp, player, current, avail, depth, visited) {
            Some(chain) => chain_listed(sp, avail, chain),
            None => true,
        },
    decreases sp.max_depth + 1 - depth, 1int, 0int,
{
    if !(depth > sp.max_depth || sp.locked.contains(current)) {
        lemma_first_free_listed(avail, 0, current, sp.used);
        match first_free_from(avail, 0, current, sp.used) {
            Some(slot) => {},
            None => {
                lemma_scan_listed(sp, player, current, avail, 0, depth, visited);
            },
        }
    }
}

proof fn lemma_scan_listed(
    sp: SearchSpace,
    player: Seq<char>,
    current: u8,
    avail: Seq<u8>,
    i: int,
    depth: nat,
    visited: Seq<Seq<char>>,
)
    ensures
        match chain_scan(sp, player, current, avail, i, depth, visited) {
            Some(chain) => chain_listed(sp, avail, chain),
            None => true,
        },
    decreases sp.max_depth + 1 - depth, 0int, avail.len() - i,
{
    if !(depth > sp.max_depth || i < 0 || i >= avail.len()) {
        let target = avail[i];
        lemma_scan_listed(sp, player, current, avail, i + 1, depth, visited);
        if !(target == current || !sp.seats.contains_key(target) || sp.locked.contains(target)) {
            let occupant = sp.seats[target].player_id;
            if !visited.contains(occupant) {
                match find_entry(sp.roster, occupant) {
                    None => {},
                    Some(k) => {
                        let inner = visited.push(occupant);
                        let slots = sp.day.slots_spec(sp.roster[k]);
                        lemma_chain_listed(sp, occupant, target, slots, depth + 1, inner);
                        lemma_chain_search(sp, occupant, target, slots, depth + 1, inner);
                        match chain_search(sp, occupant, target, slots, depth + 1, inner) {
                            Some(sub) => {
                                let head = MoveView {
                                    player_id: player,
                                    from_slot: current,
                                    to_slot: target,
                                };
                                let chain = seq![head] + sub;
                                assert(chain[0] == head);
                                assert forall|j: int| 1 <= j < chain.len() implies lists_slot_of(
                                    sp,
                                    (#[trigger] chain[j]).player_id,
                                    chain[j].to_slot,
                                ) by {
                                    assert(chain[j] == sub[j - 1]);
                                    if j == 1 {
                                        assert(sub[0].player_id == occupant);
                                    }
                                }
                            },
                            None => {},
                        }
                    },
                }
            }
        }
    }
}

/// At the depth limit nothing deeper can succeed, so trying the occupied
/// slots yields nothing.
proof fn lemma_scan_at_limit(
    sp: SearchSpace,
    player: Seq<char>,
    current: u8,
    avail: Seq<u8>,
    i: int,
    depth: nat,
    visited: Seq<Seq<char>>,
)
    requires
        depth >= sp.max_depth,
    ensures
        chain_scan(sp, player, current, avail, i, depth, visited).is_none(),
    decreases avail.len() - i,
{
    if !(depth > sp.max_depth || i < 0 || i >= avail.len()) {
        lemma_scan_at_limit(sp, player, current, avail, i + 1, depth, visited);
        let target = avail[i];
        if sp.seats.contains_key(target) {
            let occupant = sp.seats[target].player_id;
            match find_entry(sp.roster, occupant) {
                Some(k) => {
                    assert(chain_search(
                        sp,
                        occupant,
                        target,
                        sp.day.slots_spec(sp.roster[k]),
                        depth + 1,
                        visited.push(occupant),
                    ).is_none());
                },
                None => {},
            }
        }
    }
}

/// The search space that the given data stand for.
pub open spec fn search_space(
    roster: Seq<&AppointmentEntry>,
    day: Day,
    schedule: Map<u8, ScheduledAppointment>,
    used: Set<u8>,
    locked: Set<u8>,
    max_depth: u32,
) -> SearchSpace {
    SearchSpace {
        roster: roster_view(roster),
        day,
        seats: appointments_view(schedule),
        used,
        locked,
        max_depth: max_depth as nat,
    }
}

/// The content of a search result.
pub open spec fn found_view(found: Option<Vec<Move>>) -> Option<Seq<MoveView>> {
    match found {
        Some(chain) => Some(moves_view(chain@)),
        None => None,
    }
}

/// Whether `id` occurs in `ids`.
pub fn contains_id(ids: &Vec<String>, id: &String) -> (r: bool)
    ensures
        r == strings_view(ids@).contains(id@),
{
    let mut i: usize = 0;
    while i < ids.len()
        invariant
            i <= ids.len(),
            forall|k: int| 0 <= k < i ==> strings_view(ids@)[k] != id@,
        decreases ids.len() - i,
    {
        if ids[i] == *id {
            assert(strings_view(ids@)[i as int] == id@);
            return true;
        }
        i += 1;
    }
    false
}

/// Looks up the record of player `id` in `roster`: the last one, where
/// several carry the same id.
pub fn lookup_entry(roster: &[&AppointmentEntry], id: &String) -> (r: Option<usize>)
    ensures
        match r {
            Some(k) => find_entry(roster_view(roster@), id@) == Some(k as int) && k < roster@.len(),
            None => find_entry(roster_view(roster@), id@).is_none(),
        },
{
    let ghost full = roster_view(roster@);
    let mut i: usize = roster.len();
    assert(full.take(i as int) =~= full);
    while i > 0
        invariant
            i <= roster.len(),
            full == roster_view(roster@),
            find_entry(full, id@) == find_entry(full.take(i as int), id@),
        decreases i,
    {
        assert(full.take(i as int).drop_last() =~= full.take(i - 1));
        assert(full.take(i as int).last() == roster@[i - 1]@);
        if roster[i - 1].player_id == *id {
            return Some(i - 1);
        }
        i -= 1;
    }
    None
}

/// Searches for a chain of relocations that lets `player_id` leave
/// `current_slot`.
///
/// `roster` holds the candidates that may be relocated; `visited` holds the
/// players already on the path.  The result is the chain, first move first,
/// that [`chain_search`] defines.  A failed search leaves `visited` as it
/// was; a successful one has added every relocated player but the first.
pub fn find_move_chain(
    player_id: &str,
    current_slot: u8,
    available_slots: &[u8],
    schedule: &HashMap<u8, ScheduledAppointment>,
    used_slots: &HashSet<u8>,
    roster: &[&AppointmentEntry],
    day: Day,
    depth: u32,
    max_depth: u32,
    visited: &mut Vec<String>,
    locked_slots: &HashSet<u8>,
) -> (found: Option<Vec<Move>>)
    ensures
        found_view(found) == chain_search(
            search_space(roster@, day, schedule@, used_slots@, locked_slots@, max_depth),
            player_id@,
            current_slot,
            available_slots@,
            depth as nat,
            strings_view(old(visited)@),
        ),
        strings_view(final(visited)@) == visited_after(
            strings_view(old(visited)@),
            found_view(found),
        ),
        match found_view(found) {
            Some(chain) => chain_sound(
                search_space(roster@, day, schedule@, used_slots@, locked_slots@, max_depth),
                player_id@,
                current_slot,
                depth as nat,
                strings_view(old(visited)@),
                chain,
            ),
            None => true,
        },
    decreases max_depth + 1 - depth,
{
    let ghost sp = search_space(roster@, day, schedule@, used_slots@, locked_slots@, max_depth);
    let ghost seen = strings_view(visited@);
    if depth > max_depth {
        return None;
    }
    if locked_slots.contains(&current_slot) {
        return None;
    }
    let mut i: usize = 0;
    while i < available_slots.len()
        invariant
            i <= available_slots.len(),
            depth <= max_depth,
            sp == search_space(roster@, day, schedule@, used_slots@, locked_slots@, max_depth),
            seen == strings_view(visited@),
            seen == strings_view(old(visited)@),
            !locked_slots@.contains(current_slot),
            first_free_from(available_slots@, 0, current_slot, used_slots@) == first_free_from(
                available_slots@,
                i as int,
                current_slot,
                used_slots@,
            ),
        decreases available_slots.len() - i,
    {
        let slot = available_slots[i];
        if slot != current_slot && !used_slots.contains(&slot) {
            let mut chain: Vec<Move> = Vec::new();
            chain.push(Move { player_id: player_id.to_owned(), from_slot: current_slot, to_slot: slot });
            proof {
                assert(moves_view(chain@) =~= seq![
                    MoveView { player_id: player_id@, from_slot: current_slot, to_slot: slot },
                ]);
                assert(chain_players(moves_view(chain@)).skip(1) =~= Seq::<Seq<char>>::empty());
                assert(seen + Seq::<Seq<char>>::empty() =~= seen);
                lemma_chain_search(
                    sp,
                    player_id@,
                    current_slot,
                    available_slots@,
                    depth as nat,
                    seen,
                );
            }
            return Some(chain);
        }
        i += 1;
    }
    if depth == max_depth {
        proof {
            lemma_scan_at_limit(sp, player_id@, current_slot, available_slots@, 0, depth as nat, seen);
        }
        return None;
    }
    let mut i: usize = 0;
    while i < available_slots.len()
        invariant
            i <= available_slots.len(),
            depth < max_depth,
            sp == search_space(roster@, day, schedule@, used_slots@, locked_slots@, max_depth),
            seen == strings_view(visited@),
            seen == strings_view(old(visited)@),
            !locked_slots@.contains(current_slot),
            first_free_from(available_slots@, 0, current_slot, used_slots@).is_none(),
            chain_scan(sp, player_id@, current_slot, available_slots@, 0, depth as nat, seen)
                == chain_scan(
                sp,
                player_id@,
                current_slot,
                available_slots@,
                i as int,
                depth as nat,
                seen,
            ),
        decreases available_slots.len() - i,
    {
        let target = available_slots[i];
        if target != current_slot && !locked_slots.contains(&target) {
            match schedule.get(&target) {
                Some(occupant) => {
                    if !contains_id(visited, &occupant.player_id) {
                        match lookup_entry(roster, &occupant.player_id) {
                            Some(k) => {
                                visited.push(occupant.player_id.clone());
                                let ghost inner = strings_view(visited@);
                                proof {
                                    assert(inner =~= seen.push(occupant.player_id@));
                                    lemma_chain_search(
                                        sp,
                                        occupant.player_id@,
                                        target,
                                        day.slots_spec(roster@[k as int]@),
                                        (depth + 1) as nat,
                                        inner,
                                    );
                                }
                                let entry = roster[k];
                                match find_move_chain(
                                    occupant.player_id.as_str(),
                                    target,
                                    day.available_slots(entry).as_slice(),
                                    schedule,
                                    used_slots,
                                    roster,
                                    day,
                                    depth + 1,
                                    max_depth,
                                    visited,
                                    locked_slots,
                                ) {
                                    Some(sub) => {
                                        let mut chain = sub;
                                        let ghost tail = moves_view(chain@);
                                        chain.insert(
                                            0,
                                            Move {
                                                player_id: player_id.to_owned(),
                                                from_slot: current_slot,
                                                to_slot: target,
                                            },
                                        );
                                        proof {
                                            let head = MoveView {
                                                player_id: player_id@,
                                                from_slot: current_slot,
                                                to_slot: target,
                                            };
                                            assert(moves_view(chain@) =~= seq![head] + tail);
                                            assert(chain_players(tail)[0] == occupant.player_id@);
                                            assert(strings_view(visited@) =~= seen + chain_players(
                                                moves_view(chain@),
                                            ).skip(1));
                                            lemma_chain_search(
                                                sp,
                                                player_id@,
                                                current_slot,
                                                available_slots@,
                                                depth as nat,
                                                seen,
                                            );
                                        }
                                        return Some(chain);
                                    },
                                    None => {
                                        assert(strings_view(visited@) == inner);
                                        visited.pop();
                                        proof {
                                            assert forall|w: int| 0 <= w < seen.len() implies strings_view(
                                                visited@,
                                            )[w] == seen[w] by {
                                                assert(inner[w] == seen[w]);
                                            }
                                            assert(strings_view(visited@) =~= seen);
                                        }
                                    },
                                }
                            },
                            None => {},
                        }
                    }
                },
                None => {},
            }
        }
        i += 1;
    }
    None
}

/// The appointment `a` carried over to `slot`.
pub open spec fn relocated(a: AppointmentView, slot: u8) -> AppointmentView {
    AppointmentView {
        player_id: a.player_id,
        name: a.name,
        alliance: a.alliance,
        slot,
        priority_score: a.priority_score,
    }
}

/// Whether the move names the player who actually sits in its `from_slot`.
pub open spec fn move_applies(b: Board, mv: MoveView) -> bool {
    b.seats.contains_key(mv.from_slot) && b.seats[mv.from_slot].player_id == mv.player_id
}

/// Whether the move's `from_slot` is occupied by somebody else.
pub open spec fn move_refused(b: Board, mv: MoveView) -> bool {
    b.seats.contains_key(mv.from_slot) && b.seats[mv.from_slot].player_id != mv.player_id
}

/// The board after one move.  A move that does not apply changes nothing.
pub open spec fn apply_move(b: Board, mv: MoveView) -> Board {
    if move_applies(b, mv) {
        Board {
            seats: b.seats.remove(mv.from_slot).insert(
                mv.to_slot,
                relocated(b.seats[mv.from_slot], mv.to_slot),
            ),
            used: b.used.remove(mv.from_slot).insert(mv.to_slot),
        }
    } else {
        b
    }
}

/// The board after a chain, committed last move first, so that every target
/// has been vacated by the time it is claimed.
pub open spec fn apply_chain(b: Board, chain: Seq<MoveView>) -> Board
    decreases chain.len(),
{
    if chain.len() == 0 {
        b
    } else {
        apply_chain(apply_move(b, chain.last()), chain.drop_last())
    }
}

/// The `from_slot`s of the moves that were refused while committing a
/// chain, in the order in which they were met.
pub open spec fn refused_moves(b: Board, chain: Seq<MoveView>) -> Seq<u8>
    decreases chain.len(),
{
    if chain.len() == 0 {
        Seq::empty()
    } else {
        let rest = refused_moves(apply_move(b, chain.last()), chain.drop_last());
        if move_refused(b, chain.last()) {
            seq![chain.last().from_slot] + rest
        } else {
            rest
        }
    }
}

/// A board is tidy when every occupied slot counts as taken and every
/// appointment records the slot it sits in.
pub open spec fn board_tidy(b: Board) -> bool {
    &&& forall|s: u8| b.seats.contains_key(s) ==> b.used.contains(s)
    &&& forall|s: u8| b.seats.contains_key(s) ==> (#[trigger] b.seats[s]).slot == s
}

/// No player holds two slots.
pub open spec fn players_distinct(seats: Map<u8, AppointmentView>) -> bool {
    forall|s: u8, t: u8|
        seats.contains_key(s) && seats.contains_key(t) && s != t ==> (#[trigger] seats[s]).player_id
            != (#[trigger] seats[t]).player_id
}

/// Every appointment of `after` is an appointment of `before`, possibly
/// carried to another slot.
pub open spec fn comes_from(before: Map<u8, AppointmentView>, after: Map<u8, AppointmentView>) -> bool {
    forall|t: u8| #[trigger]
        after.contains_key(t) ==> exists|s: u8| #[trigger]
            before.contains_key(s) && after[t] == relocated(before[s], t)
}

/// Every appointment of `before` is still in `after`, possibly carried to
/// another slot.
pub open spec fn stays_seated(before: Map<u8, AppointmentView>, after: Map<u8, AppointmentView>) -> bool {
    forall|s: u8| #[trigger]
        before.contains_key(s) ==> exists|t: u8| #[trigger]
            after.contains_key(t) && after[t] == relocated(before[s], t)
}

/// Every appointment of `after` either stands where it stood in `before` or
/// was carried there by a move of `chain`.
pub open spec fn comes_by(
    before: Map<u8, AppointmentView>,
    chain: Seq<MoveView>,
    after: Map<u8, AppointmentView>,
) -> bool {
    forall|t: u8| #[trigger]
        after.contains_key(t) ==> (before.contains_key(t) && after[t] == before[t]) || exists|
            i: int,
        |
            0 <= i < chain.len() && (#[trigger] chain[i]).to_slot == t && before.contains_key(
                chain[i].from_slot,
            ) && after[t] == relocated(before[chain[i].from_slot], t)
}

/// A chain fits a board when each move names the occupant of its
/// `from_slot`, each target is the next move's `from_slot`, the last target
/// is free, and no slot is left twice.
pub open spec fn chain_fits(b: Board, chain: Seq<MoveView>) -> bool {
    &&& 1 <= chain.len()
    &&& forall|i: int| 0 <= i < chain.len() ==> move_applies(b, #[trigger] chain[i])
    &&& forall|i: int|
        0 <= i < chain.len() - 1 ==> (#[trigger] chain[i]).to_slot == chain[i + 1].from_slot
    &&& !b.used.contains(chain.last().to_slot)
    &&& forall|i: int, j: int|
        0 <= i < j < chain.len() ==> (#[trigger] chain[i]).from_slot != (
        #[trigger] chain[j]).from_slot
}

/// A sound chain whose first player is on the visited list and sits in the
/// slot to vacate fits the board it was searched on.
pub proof fn lemma_sound_chain_fits(
    sp: SearchSpace,
    player: Seq<char>,
    current: u8,
    depth: nat,
    visited: Seq<Seq<char>>,
    chain: Seq<MoveView>,
)
    requires
        chain_sound(sp, player, current, depth, visited, chain),
        visited.contains(player),
        sp.seats.contains_key(current),
        sp.seats[current].player_id == player,
    ensures
        chain_fits(Board { seats: sp.seats, used: sp.used }, chain),
        forall|i: int, j: int|
            0 <= i < j < chain.len() ==> (#[trigger] chain[i]).player_id != (
            #[trigger] chain[j]).player_id,
{
    let b = Board { seats: sp.seats, used: sp.used };
    assert forall|i: int, j: int| 0 <= i < j < chain.len() implies (#[trigger] chain[i]).player_id
        != (#[trigger] chain[j]).player_id by {
        if i == 0 {
            assert(!visited.contains(chain[j].player_id));
        }
    }
    assert forall|i: int| 0 <= i < chain.len() implies move_applies(b, #[trigger] chain[i]) by {}
}

/// Moving an occupant to a free slot keeps the board tidy, keeps the
/// players distinct and keeps everybody seated.
pub proof fn lemma_clean_move(b: Board, mv: MoveView)
    requires
        board_tidy(b),
        move_applies(b, mv),
        !b.used.contains(mv.to_slot),
    ensures
        board_tidy(apply_move(b, mv)),
        players_distinct(b.seats) ==> players_distinct(apply_move(b, mv).seats),
        comes_from(b.seats, apply_move(b, mv).seats),
        stays_seated(b.seats, apply_move(b, mv).seats),
        !apply_move(b, mv).used.contains(mv.from_slot),
        !apply_move(b, mv).seats.contains_key(mv.from_slot),
{
    let after = apply_move(b, mv);
    assert forall|s: u8| #[trigger] b.seats.contains_key(s) implies exists|t: u8| #[trigger]
        after.seats.contains_key(t) && after.seats[t] == relocated(b.seats[s], t) by {
        if s == mv.from_slot {
            assert(after.seats.contains_key(mv.to_slot));
        } else {
            assert(after.seats.contains_key(s));
            assert(after.seats[s] == relocated(b.seats[s], s));
        }
    }
    assert forall|t: u8| #[trigger] after.seats.contains_key(t) implies exists|s: u8| #[trigger]
        b.seats.contains_key(s) && after.seats[t] == relocated(b.seats[s], t) by {
        if t == mv.to_slot {
            assert(b.seats.contains_key(mv.from_slot));
        } else {
            assert(b.seats.contains_key(t));
            assert(after.seats[t] == relocated(b.seats[t], t));
        }
    }
    if players_distinct(b.seats) {
        assert forall|s: u8, t: u8|
            after.seats.contains_key(s) && after.seats.contains_key(t) && s != t implies (
        #[trigger] after.seats[s]).player_id != (#[trigger] after.seats[t]).player_id by {
            let src_s = if s == mv.to_slot { mv.from_slot } else { s };
            let src_t = if t == mv.to_slot { mv.from_slot } else { t };
            assert(b.seats[src_s].player_id != b.seats[src_t].player_id);
        }
    }
}

/// Committing the last move of a fitting chain leaves a tidy board that the
/// rest of the chain fits, with the other players where they were.
pub proof fn lemma_fitting_step(b: Board, chain: Seq<MoveView>)
    requires
        board_tidy(b),
        chain_fits(b, chain),
    ensures
        move_applies(b, chain.last()),
        !b.used.contains(chain.last().to_slot),
        chain.last().to_slot != chain.last().from_slot,
        board_tidy(apply_move(b, chain.last())),
        chain.len() > 1 ==> chain_fits(apply_move(b, chain.last()), chain.drop_last()),
        forall|i: int|
            0 <= i < chain.len() - 1 ==> apply_move(b, chain.last()).seats[(
            #[trigger] chain[i]).from_slot] == b.seats[chain[i].from_slot],
{
    let last = chain.last();
    let mid = apply_move(b, last);
    let init = chain.drop_last();
    lemma_clean_move(b, last);
    assert(b.used.contains(last.from_slot));
    assert forall|i: int| 0 <= i < chain.len() - 1 implies mid.seats[(
    #[trigger] chain[i]).from_slot] == b.seats[chain[i].from_slot] by {
        assert(move_applies(b, chain[i]));
        assert(chain[i].from_slot != chain[chain.len() - 1].from_slot);
        assert(b.used.contains(chain[i].from_slot));
    }
    if chain.len() > 1 {
        assert forall|i: int| 0 <= i < init.len() implies move_applies(mid, #[trigger] init[i]) by {
            assert(init[i] == chain[i]);
            assert(move_applies(b, chain[i]));
            assert(chain[i].from_slot != chain[chain.len() - 1].from_slot);
            assert(b.used.contains(chain[i].from_slot));
        }
        assert(init.last() == chain[chain.len() - 2]);
        assert(init.last().to_slot == last.from_slot);
        assert forall|i: int, j: int| 0 <= i < j < init.len() implies (#[trigger] init[i]).from_slot
            != (#[trigger] init[j]).from_slot by {
            assert(init[i] == chain[i] && init[j] == chain[j]);
        }
        assert forall|i: int| 0 <= i < init.len() - 1 implies (#[trigger] init[i]).to_slot == init[i
            + 1].from_slot by {
            assert(init[i] == chain[i] && init[i + 1] == chain[i + 1]);
        }
    }
}

/// What committing a fitting chain does: the first `from_slot` becomes
/// free, the last target becomes taken, nobody is refused, and the board
/// keeps its shape.
pub proof fn lemma_apply_fitting_chain(b: Board, chain: Seq<MoveView>)
    requires
        board_tidy(b),
        chain_fits(b, chain),
    ensures
        board_tidy(apply_chain(b, chain)),
        players_distinct(b.seats) ==> players_distinct(apply_chain(b, chain).seats),
        comes_from(b.seats, apply_chain(b, chain).seats),
        apply_chain(b, chain).used == b.used.remove(chain[0].from_slot).insert(
            chain.last().to_slot,
        ),
        apply_chain(b, chain).seats.dom() == b.seats.dom().remove(chain[0].from_slot).insert(
            chain.last().to_slot,
        ),
        !apply_chain(b, chain).used.contains(chain[0].from_slot),
        refused_moves(b, chain) == Seq::<u8>::empty(),
    decreases chain.len(),
{
    let last = chain.last();
    let mid = apply_move(b, last);
    let init = chain.drop_last();
    lemma_clean_move(b, last);
    lemma_fitting_step(b, chain);
    if chain.len() == 1 {
        assert(apply_chain(mid, init) == mid);
        assert(refused_moves(mid, init) == Seq::<u8>::empty());
        assert(mid.seats.dom() =~= b.seats.dom().remove(last.from_slot).insert(last.to_slot));
    } else {
        lemma_apply_fitting_chain(mid, init);
        let end = apply_chain(mid, init);
        assert(end == apply_chain(b, chain));
        assert(init[0] == chain[0]);
        assert(chain[0].from_slot != chain[chain.len() - 1].from_slot);
        assert(move_applies(b, chain[0]));
        assert(b.used.contains(chain[0].from_slot));
        assert(end.used =~= b.used.remove(chain[0].from_slot).insert(last.to_slot));
        assert(end.seats.dom() =~= b.seats.dom().remove(chain[0].from_slot).insert(last.to_slot));
        assert forall|t: u8| #[trigger] end.seats.contains_key(t) implies exists|s: u8| #[trigger]
            b.seats.contains_key(s) && end.seats[t] == relocated(b.seats[s], t) by {
            let m = choose|m: u8| #[trigger]
                mid.seats.contains_key(m) && end.seats[t] == relocated(mid.seats[m], t);
            let s = choose|s: u8| #[trigger]
                b.seats.contains_key(s) && mid.seats[m] == relocated(b.seats[s], m);
            assert(b.seats.contains_key(s) && end.seats[t] == relocated(b.seats[s], t));
        }
    }
}

/// Committing a fitting chain unseats nobody.
pub proof fn lemma_chain_keeps_seated(b: Board, chain: Seq<MoveView>)
    requires
        board_tidy(b),
        chain_fits(b, chain),
    ensures
        stays_seated(b.seats, apply_chain(b, chain).seats),
    decreases chain.len(),
{
    let last = chain.last();
    let mid = apply_move(b, last);
    let init = chain.drop_last();
    lemma_clean_move(b, last);
    lemma_fitting_step(b, chain);
    if chain.len() == 1 {
        assert(apply_chain(mid, init) == mid);
    } else {
        lemma_chain_keeps_seated(mid, init);
        let end = apply_chain(mid, init);
        assert(end == apply_chain(b, chain));
        assert forall|s: u8| #[trigger] b.seats.contains_key(s) implies exists|t: u8| #[trigger]
            end.seats.contains_key(t) && end.seats[t] == relocated(b.seats[s], t) by {
            let m = choose|m: u8| #[trigger]
                mid.seats.contains_key(m) && mid.seats[m] == relocated(b.seats[s], m);
            let t = choose|t: u8| #[trigger]
                end.seats.contains_key(t) && end.seats[t] == relocated(mid.seats[m], t);
            assert(end.seats.contains_key(t) && end.seats[t] == relocated(b.seats[s], t));
        }
    }
}

/// After a fitting chain every appointment stands where it stood or was
/// carried there by one of the moves.
pub proof fn lemma_chain_carries(b: Board, chain: Seq<MoveView>)
    requires
        board_tidy(b),
        chain_fits(b, chain),
    ensures
        comes_by(b.seats, chain, apply_chain(b, chain).seats),
    decreases chain.len(),
{
    let last = chain.last();
    let mid = apply_move(b, last);
    let init = chain.drop_last();
    lemma_fitting_step(b, chain);
    if chain.len() == 1 {
        assert(apply_chain(mid, init) == mid);
        assert forall|t: u8| #[trigger] mid.seats.contains_key(t) implies (b.seats.contains_key(t)
            && mid.seats[t] == b.seats[t]) || exists|i: int|
            0 <= i < chain.len() && (#[trigger] chain[i]).to_slot == t && b.seats.contains_key(
                chain[i].from_slot,
            ) && mid.seats[t] == relocated(b.seats[chain[i].from_slot], t) by {
            if t == last.to_slot {
                assert(chain[0].to_slot == t);
            }
        }
    } else {
        lemma_chain_carries(mid, init);
        let end = apply_chain(mid, init).seats;
        assert(end == apply_chain(b, chain).seats);
        assert forall|t: u8| #[trigger] end.contains_key(t) implies (b.seats.contains_key(t)
            && end[t] == b.seats[t]) || exists|i: int|
            0 <= i < chain.len() && (#[trigger] chain[i]).to_slot == t && b.seats.contains_key(
                chain[i].from_slot,
            ) && end[t] == relocated(b.seats[chain[i].from_slot], t) by {
            if mid.seats.contains_key(t) && end[t] == mid.seats[t] {
                if t == last.to_slot {
                    assert(chain[chain.len() - 1].to_slot == t);
                }
            } else {
                let i = choose|i: int|
                    0 <= i < init.len() && (#[trigger] init[i]).to_slot == t
                        && mid.seats.contains_key(init[i].from_slot) && end[t] == relocated(
                        mid.seats[init[i].from_slot],
                        t,
                    );
                assert(init[i] == chain[i]);
                assert(move_applies(b, chain[i]));
                assert(chain[i].to_slot == t);
            }
        }
    }
}

/// The board that a schedule and a set of taken slots stand for.
pub open spec fn board_of(schedule: Map<u8, ScheduledAppointment>, used: Set<u8>) -> Board {
    Board { seats: appointments_view(schedule), used }
}

/// Commits a chain to the schedule and the set of taken slots, last move
/// first.
///
/// A move whose `from_slot` is empty is passed over.  A move whose
/// `from_slot` holds another player than the move names is refused: the
/// occupant stays, and the slot is reported.  Returns the refused
/// `from_slot`s in the order in which they were met.
pub fn apply_move_chain(
    moves: &[Move],
    schedule: &mut HashMap<u8, ScheduledAppointment>,
    used_slots: &mut HashSet<u8>,
) -> (refused: Vec<u8>)
    ensures
        board_of(final(schedule)@, final(used_slots)@)
            == apply_chain(
            board_of(old(schedule)@, old(used_slots)@),
            moves_view(moves@),
        ),
        refused@ == refused_moves(
            board_of(old(schedule)@, old(used_slots)@),
            moves_view(moves@),
        ),
{
    let ghost chain = moves_view(moves@);
    let ghost start = board_of(schedule@, used_slots@);
    let mut refused: Vec<u8> = Vec::new();
    let mut k: usize = moves.len();
    proof {
        assert(chain.take(k as int) =~= chain);
        assert(refused@ + refused_moves(start, chain) =~= refused_moves(start, chain));
    }
    while k > 0
        invariant
            k <= moves.len(),
            chain == moves_view(moves@),
            apply_chain(start, chain) == apply_chain(
                board_of(schedule@, used_slots@),
                chain.take(k as int),
            ),
            refused_moves(start, chain) == refused@ + refused_moves(
                board_of(schedule@, used_slots@),
                chain.take(k as int),
            ),
        decreases k,
    {
        let mv = &moves[k - 1];
        let ghost b = board_of(schedule@, used_slots@);
        let ghost before = schedule@;
        let ghost noted = refused@;
        proof {
            assert(chain.take(k as int).drop_last() =~= chain.take(k - 1));
            assert(chain.take(k as int).last() == mv@);
        }
        match schedule.remove(&mv.from_slot) {
            Some(appt) => {
                if appt.player_id == mv.player_id {
                    let mut moved = appt;
                    moved.slot = mv.to_slot;
                    schedule.insert(mv.to_slot, moved);
                    used_slots.remove(&mv.from_slot);
                    used_slots.insert(mv.to_slot);
                    proof {
                        assert(move_applies(b, mv@));
                        assert(appointments_view(schedule@) =~= apply_move(b, mv@).seats);
                    }
                } else {
                    schedule.insert(mv.from_slot, appt);
                    refused.push(mv.from_slot);
                    proof {
                        assert(schedule@ =~= before);
                        assert(move_refused(b, mv@));
                        assert(refused@ =~= noted + seq![mv.from_slot]);
                        let rest = refused_moves(apply_move(b, mv@), chain.take(k - 1));
                        assert(noted + (seq![mv.from_slot] + rest) =~= (noted + seq![
                            mv.from_slot,
                        ]) + rest);
                    }
                }
            },
            None => {
                proof {
                    assert(schedule@ =~= before);
                }
            },
        }
        k -= 1;
    }
    proof {
        assert(chain.take(0) =~= Seq::<MoveView>::empty());
        assert(refused@ + Seq::<u8>::empty() =~= refused@);
    }
    refused
}

} // verus!
