//! Slot popularity and the time labels of slots.

use std::collections::HashMap;
use vstd::prelude::*;
use vstd::string::StringExecFns;
use crate::text::{
    chars_of, find_char, parse_u32, parse_u32_spec, position_from, push_two_digits, slice_chars,
    two_digits,
};

verus! {

/// The contents of a list of slot lists.
pub open spec fn slot_lists(lists: Seq<Vec<u8>>) -> Seq<Seq<u8>> {
    Seq::new(lists.len(), |i: int| lists[i]@)
}

/// How many of `lists` name `slot`.
pub open spec fn popularity(lists: Seq<Seq<u8>>, slot: u8) -> nat
    decreases lists.len(),
{
    if lists.len() == 0 {
        0
    } else {
        popularity(lists.drop_last(), slot) + if lists.last().contains(slot) {
            1nat
        } else {
            0nat
        }
    }
}

/// The popularity table of `lists`: every slot that some list names, with
/// the number of lists that name it.
pub open spec fn slot_rankings(lists: Seq<Seq<u8>>) -> Map<u8, usize> {
    Map::new(|s: u8| popularity(lists, s) > 0, |s: u8| popularity(lists, s) as usize)
}

/// The popularity recorded for `slot` in a table, zero where it has no
/// row.
pub open spec fn rank_of(rankings: Map<u8, usize>, slot: u8) -> usize {
    if rankings.contains_key(slot) {
        rankings[slot]
    } else {
        0
    }
}

/// No slot is more popular than there are lists.
pub proof fn lemma_popularity_bound(lists: Seq<Seq<u8>>, slot: u8)
    ensures
        popularity(lists, slot) <= lists.len(),
    decreases lists.len(),
{
    if lists.len() > 0 {
        lemma_popularity_bound(lists.drop_last(), slot);
    }
}

/// Popularity does not depend on the order of the lists: exchanging two
/// neighbours leaves every count as it was.
pub proof fn law_popularity_ignores_order(lists: Seq<Seq<u8>>, i: int, slot: u8)
    requires
        0 <= i,
        i + 1 < lists.len(),
    ensures
        popularity(lists.update(i, lists[i + 1]).update(i + 1, lists[i]), slot) == popularity(
            lists,
            slot,
        ),
    decreases lists.len(),
{
    let swapped = lists.update(i, lists[i + 1]).update(i + 1, lists[i]);
    if i + 2 == lists.len() {
        let a = lists.drop_last();
        let b = swapped.drop_last();
        assert(a.drop_last() =~= b.drop_last());
        assert(a.last() == lists[i]);
        assert(b.last() == lists[i + 1]);
        assert(popularity(a, slot) == popularity(a.drop_last(), slot) + if a.last().contains(
            slot,
        ) {
            1nat
        } else {
            0nat
        });
        assert(popularity(b, slot) == popularity(b.drop_last(), slot) + if b.last().contains(
            slot,
        ) {
            1nat
        } else {
            0nat
        });
    } else {
        law_popularity_ignores_order(lists.drop_last(), i, slot);
        assert(swapped.drop_last() =~= lists.drop_last().update(i, lists[i + 1]).update(
            i + 1,
            lists[i],
        ));
    }
}

/// Whether `slot` occurs among the first `upto` entries of `list`.
pub fn listed_before(list: &[u8], upto: usize, slot: u8) -> (r: bool)
    requires
        upto <= list@.len(),
    ensures
        r == list@.take(upto as int).contains(slot),
{
    let mut i: usize = 0;
    while i < upto
        invariant
            i <= upto <= list@.len(),
            forall|k: int| 0 <= k < i ==> list@[k] != slot,
        decreases upto - i,
    {
        if list[i] == slot {
            assert(list@.take(upto as int)[i as int] == slot);
            return true;
        }
        i += 1;
    }
    false
}

/// Whether `slot` occurs in `list`.
pub fn lists_slot(list: &[u8], slot: u8) -> (r: bool)
    ensures
        r == list@.contains(slot),
{
    assert(list@.take(list@.len() as int) =~= list@);
    listed_before(list, list.len(), slot)
}

/// Reads the popularity of `slot` from a table, zero where it has no row.
pub fn ranking_of(rankings: &HashMap<u8, usize>, slot: u8) -> (r: usize)
    ensures
        r == rank_of(rankings@, slot),
{
    match rankings.get(&slot) {
        Some(c) => *c,
        None => 0,
    }
}

/// Counts, for every slot, how many of the given availability lists name
/// it.  Slots that no list names get no row.
pub fn calculate_slot_rankings(available_slots_list: &[Vec<u8>]) -> (rankings: HashMap<u8, usize>)
    ensures
        rankings@ == slot_rankings(slot_lists(available_slots_list@)),
{
    let ghost lists = slot_lists(available_slots_list@);
    let mut rankings: HashMap<u8, usize> = HashMap::new();
    let mut i: usize = 0;
    assert(rankings@ =~= slot_rankings(lists.take(0)));
    while i < available_slots_list.len()
        invariant
            i <= available_slots_list.len(),
            lists == slot_lists(available_slots_list@),
            rankings@ =~= slot_rankings(lists.take(i as int)),
        decreases available_slots_list.len() - i,
    {
        let slots = &available_slots_list[i];
        let ghost done = lists.take(i as int);
        let mut j: usize = 0;
        proof {
            assert(slots@.take(0) =~= Seq::<u8>::empty());
            assert forall|s: u8| #[trigger] popularity(done, s) <= i by {
                lemma_popularity_bound(done, s);
            }
        }
        while j < slots.len()
            invariant
                j <= slots.len(),
                i < available_slots_list.len(),
                lists.len() == available_slots_list@.len(),
                slots@ == lists[i as int],
                done == lists.take(i as int),
                forall|s: u8|
                    rank_of(rankings@, s) == #[trigger] popularity(done, s) + if slots@.take(
                        j as int,
                    ).contains(s) {
                        1nat
                    } else {
                        0nat
                    },
                forall|s: u8| rankings@.contains_key(s) ==> rankings@[s] > 0,
                forall|s: u8| #[trigger] popularity(done, s) <= i,
            decreases slots.len() - j,
        {
            let slot = slots[j];
            let ghost before = slots@.take(j as int);
            let ghost after = slots@.take(j + 1);
            proof {
                assert(after =~= before.push(slot));
                assert forall|s: u8| after.contains(s) == (before.contains(s) || s == slot) by {
                    if before.contains(s) {
                        let k = choose|k: int| 0 <= k < before.len() && before[k] == s;
                        assert(after[k] == s);
                    }
                    if s == slot {
                        assert(after[j as int] == s);
                    }
                }
                lemma_popularity_bound(done, slot);
            }
            if !listed_before(slots.as_slice(), j, slot) {
                let count = ranking_of(&rankings, slot);
                rankings.insert(slot, count + 1);
            }
            j += 1;
        }
        proof {
            assert(slots@.take(slots@.len() as int) =~= slots@);
            let next = lists.take(i + 1);
            assert(next.drop_last() =~= done);
            assert(next.last() == slots@);
            assert forall|s: u8| rank_of(rankings@, s) == #[trigger] popularity(next, s) by {
                lemma_popularity_bound(next, s);
                assert(next.len() > 0);
                assert(popularity(next, s) == popularity(done, s) + if slots@.contains(s) {
                    1nat
                } else {
                    0nat
                });
                assert(rank_of(rankings@, s) == popularity(done, s) + if slots@.contains(s) {
                    1nat
                } else {
                    0nat
                });
            }
            assert(rankings@ =~= slot_rankings(next));
        }
        i += 1;
    }
    assert(lists.take(lists.len() as int) =~= lists);
    rankings
}

/// Minutes in a day.
pub const DAY_MINUTES: u32 = 1440;

/// The most slots a time table can have.
pub const MAX_TABLE_SLOTS: u8 = 200;

/// A time of day as text: hours and minutes, each at least two digits
/// wide, with a colon between them.
pub open spec fn clock_text(hours: nat, minutes: nat) -> Seq<char> {
    two_digits(hours) + seq![':'] + two_digits(minutes)
}

/// The text for a number of minutes since midnight; the hours wrap
/// around after a day.
pub open spec fn minutes_text(minutes: nat) -> Seq<char> {
    clock_text((minutes / 60) % 24, minutes % 60)
}

/// The minute at which a slot of the fixed table begins: the first at
/// midnight, the second a quarter of an hour later, and from then on
/// every half hour.
pub open spec fn fixed_slot_minute(slot: u8) -> nat {
    if slot <= 1 {
        0
    } else if slot == 2 {
        15
    } else {
        (45 + (slot - 3) * 30) as nat
    }
}

/// The time label of a slot of the fixed table.
pub open spec fn fixed_slot_text(slot: u8) -> Seq<char> {
    clock_text(fixed_slot_minute(slot) / 60, fixed_slot_minute(slot) % 60)
}

/// The two numbers of a text that holds exactly one colon, with a
/// number before it and a number behind it.
pub open spec fn clock_parts(s: Seq<char>) -> Option<(u32, u32)> {
    let colon = position_from(s, ':', 0);
    if colon >= s.len() || position_from(s, ':', colon + 1) < s.len() {
        None
    } else {
        match (
            parse_u32_spec(s.subrange(0, colon)),
            parse_u32_spec(s.subrange(colon + 1, s.len() as int)),
        ) {
            (Some(hours), Some(minutes)) => Some((hours, minutes)),
            _ => None,
        }
    }
}

/// The minutes since midnight that `s` denotes: hours below 24, a colon,
/// and minutes below 60.
pub open spec fn parse_clock(s: Seq<char>) -> Option<u32> {
    match clock_parts(s) {
        Some((hours, minutes)) => if hours < 24 && minutes < 60 {
            Some((hours * 60 + minutes) as u32)
        } else {
            None
        },
        None => None,
    }
}

/// Builds the text of a time of day from its hours and minutes.
fn clock_string(hours: u32, minutes: u32) -> (text: String)
    ensures
        text@ == clock_text(hours as nat, minutes as nat),
{
    let mut text = String::new();
    push_two_digits(&mut text, hours);
    proof {
        reveal_strlit(":");
    }
    let ghost front = text@;
    text.append(":");
    assert(text@ =~= front + seq![':']);
    push_two_digits(&mut text, minutes);
    assert(text@ =~= clock_text(hours as nat, minutes as nat));
    text
}

/// Gives the time label of a slot of the fixed table.
pub fn slot_to_time(slot: u8) -> (text: String)
    requires
        slot >= 1,
    ensures
        text@ == fixed_slot_text(slot),
{
    let total_minutes: u32 = if slot == 1 {
        0
    } else if slot == 2 {
        15
    } else {
        45 + (slot as u32 - 3) * 30
    };
    clock_string(total_minutes / 60, total_minutes % 60)
}

/// Reads a time of day, written as hours, a colon and minutes, as
/// minutes since midnight.
pub fn parse_time_to_minutes(time_str: &str) -> (r: Option<u32>)
    ensures
        r == parse_clock(time_str@),
{
    let chars = chars_of(time_str);
    parse_clock_chars(chars.as_slice())
}

/// Reads the two numbers around the single colon of
/// `chars[from..to]`.
pub fn read_clock_parts(chars: &[char], from: usize, to: usize) -> (r: Option<(u32, u32)>)
    requires
        from <= to <= chars@.len(),
    ensures
        r == clock_parts(chars@.subrange(from as int, to as int)),
{
    let part = slice_chars(chars, from, to);
    let n = part.len();
    assert(part@.take(n as int) =~= part@);
    let colon = find_char(part.as_slice(), ':', 0, n);
    if colon >= n {
        return None;
    }
    let second = find_char(part.as_slice(), ':', colon + 1, n);
    if second < n {
        return None;
    }
    match parse_u32(part.as_slice(), 0, colon) {
        None => None,
        Some(hours) => match parse_u32(part.as_slice(), colon + 1, n) {
            None => None,
            Some(minutes) => Some((hours, minutes)),
        },
    }
}

/// Reads a time of day from its characters.
pub fn parse_clock_chars(chars: &[char]) -> (r: Option<u32>)
    ensures
        r == parse_clock(chars@),
{
    assert(chars@.subrange(0, chars@.len() as int) =~= chars@);
    match read_clock_parts(chars, 0, chars.len()) {
        None => None,
        Some((hours, minutes)) => {
            if hours >= 24 || minutes >= 60 {
                None
            } else {
                Some(hours * 60 + minutes)
            }
        },
    }
}

/// Writes a number of minutes since midnight as a time of day.
pub fn minutes_to_time_string(minutes: u32) -> (text: String)
    ensures
        text@ == minutes_text(minutes as nat),
{
    clock_string((minutes / 60) % 24, minutes % 60)
}

/// The minute, counted from the midnight before the start, at which
/// slot `slot` of a table begins: the first at the start, the second a
/// quarter of an hour later, and from then on every half hour.
pub open spec fn table_minute(start: nat, slot: nat) -> nat {
    if slot <= 1 {
        start
    } else {
        (start + 15 + 30 * (slot - 2)) as nat
    }
}

/// Whether a slot that would begin at minute `at` lies at or beyond the
/// end of the table.  Where the end lies before the start on the clock,
/// the table runs past midnight, and the end is reached once the time of
/// day lies between end and start.
pub open spec fn reaches_end(start: nat, end: nat, at: nat) -> bool {
    if end < start {
        let check = if at >= DAY_MINUTES {
            at % (DAY_MINUTES as nat)
        } else {
            at
        };
        check >= end && check < start
    } else {
        at >= end
    }
}

/// Whether the table has a second slot.
pub open spec fn second_slot_fits(start: nat, end: nat) -> bool {
    start + 15 < end || (end < start && start + 15 < end + DAY_MINUTES)
}

/// The number of slots of a table of which the slots before `next` are
/// settled: slots are added until one reaches the end or the table is
/// full.
pub open spec fn table_len_from(start: nat, end: nat, next: nat) -> nat
    decreases MAX_TABLE_SLOTS + 1 - next,
{
    if next > MAX_TABLE_SLOTS || reaches_end(start, end, table_minute(start, next)) {
        (next - 1) as nat
    } else {
        table_len_from(start, end, next + 1)
    }
}

/// The number of slots of a table.
pub open spec fn table_len(start: nat, end: nat) -> nat {
    if second_slot_fits(start, end) {
        table_len_from(start, end, 3)
    } else {
        1
    }
}

/// The time table from `start` to `end`: each slot with its number and
/// its time of day.
pub open spec fn time_table(start: nat, end: nat) -> Seq<(u8, Seq<char>)> {
    Seq::new(table_len(start, end), |i: int| table_entry(start, (i + 1) as nat))
}

/// The start of a table as configured: midnight where the text is no
/// time of day.
pub open spec fn table_start(start_time: Seq<char>) -> nat {
    match parse_clock(start_time) {
        Some(m) => m as nat,
        None => 0,
    }
}

/// The end of a table as configured: a day after the start where none
/// is given or the text is no time of day.
pub open spec fn table_end(start: nat, end_time: Option<Seq<char>>) -> nat {
    match end_time {
        Some(text) => match parse_clock(text) {
            Some(m) => m as nat,
            None => (start + DAY_MINUTES) as nat,
        },
        None => (start + DAY_MINUTES) as nat,
    }
}

/// The content of a time table.
pub open spec fn table_view(table: Seq<(u8, String)>) -> Seq<(u8, Seq<char>)> {
    Seq::new(table.len(), |i: int| (table[i].0, table[i].1@))
}

/// The content of an optional text.
pub open spec fn optional_text(text: Option<&str>) -> Option<Seq<char>> {
    match text {
        Some(t) => Some(t@),
        None => None,
    }
}

/// The entry of a time table for slot `slot`.
pub open spec fn table_entry(start: nat, slot: nat) -> (u8, Seq<char>) {
    (slot as u8, minutes_text(table_minute(start, slot) % (DAY_MINUTES as nat)))
}

/// Tells whether a slot that would begin at minute `at` lies at or
/// beyond the end of the table.
fn at_end(start_minutes: u32, end_minutes: u32, at: u32) -> (r: bool)
    ensures
        r == reaches_end(start_minutes as nat, end_minutes as nat, at as nat),
{
    if end_minutes < start_minutes {
        let check_minutes: u32 = if at >= DAY_MINUTES {
            at % DAY_MINUTES
        } else {
            at
        };
        check_minutes >= end_minutes && check_minutes < start_minutes
    } else {
        at >= end_minutes
    }
}

/// Builds the entry of a time table for slot `slot`, which begins at
/// minute `at`.
fn entry_for(slot: u8, at: u32, Ghost(start): Ghost<nat>) -> (entry: (u8, String))
    requires
        at == table_minute(start, slot as nat),
    ensures
        (entry.0, entry.1@) == table_entry(start, slot as nat),
{
    (slot, minutes_to_time_string(at % DAY_MINUTES))
}

/// Adds the slots from the third on to a table that holds the first
/// two.
fn extend_table(slots: &mut Vec<(u8, String)>, start_minutes: u32, end_minutes: u32)
    requires
        start_minutes < DAY_MINUTES,
        old(slots)@.len() == 2,
        forall|i: int| 0 <= i < 2 ==> #[trigger] table_view(old(slots)@)[i] == table_entry(
            start_minutes as nat,
            (i + 1) as nat,
        ),
    ensures
        final(slots)@.len() == table_len_from(start_minutes as nat, end_minutes as nat, 3),
        forall|i: int|
            0 <= i < final(slots)@.len() ==> #[trigger] table_view(final(slots)@)[i]
                == table_entry(start_minutes as nat, (i + 1) as nat),
{
    let ghost start = start_minutes as nat;
    let ghost end = end_minutes as nat;
    let mut current_minutes: u32 = start_minutes + 15;
    let mut slot_num: u8 = 3;
    while slot_num <= MAX_TABLE_SLOTS
        invariant_except_break
            current_minutes == table_minute(start, (slot_num - 1) as nat),
            slots@.len() == slot_num - 1,
        invariant
            3 <= slot_num <= MAX_TABLE_SLOTS + 1,
            start == start_minutes,
            end == end_minutes,
            start < DAY_MINUTES,
            table_len_from(start, end, 3) == table_len_from(start, end, slot_num as nat),
            forall|i: int|
                0 <= i < slots@.len() ==> #[trigger] table_view(slots@)[i] == table_entry(
                    start,
                    (i + 1) as nat,
                ),
        ensures
            slots@.len() == table_len_from(start, end, 3),
        decreases MAX_TABLE_SLOTS + 1 - slot_num,
    {
        current_minutes += 30;
        if at_end(start_minutes, end_minutes, current_minutes) {
            break ;
        }
        let ghost before = table_view(slots@);
        let entry = entry_for(slot_num, current_minutes, Ghost(start));
        slots.push(entry);
        proof {
            assert forall|i: int| 0 <= i < slots@.len() implies #[trigger] table_view(slots@)[i]
                == table_entry(start, (i + 1) as nat) by {
                if i < before.len() {
                    assert(table_view(slots@)[i] == before[i]);
                }
            }
        }
        slot_num += 1;
    }
}

/// Computes the time table of a day: slot one at the start, slot two a
/// quarter of an hour later, every further slot half an hour after the
/// one before, up to the end.
pub fn calculate_time_slots(start_time: &str, end_time: Option<&str>) -> (table: Vec<(u8, String)>)
    ensures
        table_view(table@) == time_table(
            table_start(start_time@),
            table_end(table_start(start_time@), optional_text(end_time)),
        ),
{
    let start_minutes: u32 = match parse_time_to_minutes(start_time) {
        Some(m) => m,
        None => 0,
    };
    let end_minutes: u32 = match end_time {
        Some(text) => match parse_time_to_minutes(text) {
            Some(m) => m,
            None => start_minutes + DAY_MINUTES,
        },
        None => start_minutes + DAY_MINUTES,
    };
    let ghost start = start_minutes as nat;
    let ghost end = end_minutes as nat;
    let mut slots: Vec<(u8, String)> = Vec::new();
    slots.push(entry_for(1, start_minutes, Ghost(start)));
    let second: u32 = start_minutes + 15;
    if second < end_minutes || (end_minutes < start_minutes && second < end_minutes + DAY_MINUTES) {
        slots.push(entry_for(2, second, Ghost(start)));
        extend_table(&mut slots, start_minutes, end_minutes);
    }
    proof {
        let target = time_table(start, end);
        assert(table_view(slots@).len() == target.len());
        assert forall|i: int| 0 <= i < target.len() implies table_view(slots@)[i] == target[i] by {
            assert(target[i] == table_entry(start, (i + 1) as nat));
        }
        assert(table_view(slots@) =~= target);
    }
    slots
}

} // verus!
