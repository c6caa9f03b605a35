//! Candidate records as the scheduler consumes them.

use std::collections::HashSet;
use vstd::prelude::*;
use crate::schedule::slot_utils::{clock_parts, read_clock_parts, table_view};
use crate::text::{
    chars_of, find_char, fold, fold_char, parse_u32, parse_u32_spec, position_from, same_chars,
    slice_chars, trim_bounds, trimmed,
};

verus! {

/// One candidate: identity, display data and, per day, the wish to take
/// part, the priority figures and the acceptable slots.
#[derive(Debug, Clone)]
pub struct AppointmentEntry {
    pub alliance: String,
    pub name: String,
    pub player_id: String,
    pub wants_construction: bool,
    pub wants_research: bool,
    pub wants_troops: bool,
    pub construction_speedups: u32,
    pub research_speedups: u32,
    pub troops_speedups: u32,
    pub construction_truegold: u32,
    pub construction_score: u32,
    pub research_truegold_dust: u32,
    pub research_score: u32,
    pub construction_available_slots: Vec<u8>,
    pub research_available_slots: Vec<u8>,
    pub troops_available_slots: Vec<u8>,
}

/// The mathematical content of an [`AppointmentEntry`].
pub struct EntryView {
    pub alliance: Seq<char>,
    pub name: Seq<char>,
    pub player_id: Seq<char>,
    pub wants_construction: bool,
    pub wants_research: bool,
    pub wants_troops: bool,
    pub construction_speedups: u32,
    pub research_speedups: u32,
    pub troops_speedups: u32,
    pub construction_truegold: u32,
    pub construction_score: u32,
    pub research_truegold_dust: u32,
    pub research_score: u32,
    pub construction_available_slots: Seq<u8>,
    pub research_available_slots: Seq<u8>,
    pub troops_available_slots: Seq<u8>,
}

impl View for AppointmentEntry {
    type V = EntryView;

    open spec fn view(&self) -> EntryView {
        EntryView {
            alliance: self.alliance@,
            name: self.name@,
            player_id: self.player_id@,
            wants_construction: self.wants_construction,
            wants_research: self.wants_research,
            wants_troops: self.wants_troops,
            construction_speedups: self.construction_speedups,
            research_speedups: self.research_speedups,
            troops_speedups: self.troops_speedups,
            construction_truegold: self.construction_truegold,
            construction_score: self.construction_score,
            research_truegold_dust: self.research_truegold_dust,
            research_score: self.research_score,
            construction_available_slots: self.construction_available_slots@,
            research_available_slots: self.research_available_slots@,
            troops_available_slots: self.troops_available_slots@,
        }
    }
}

/// The views of a list of entries, in order.
pub open spec fn entries_view(entries: Seq<AppointmentEntry>) -> Seq<EntryView> {
    Seq::new(entries.len(), |i: int| entries[i]@)
}

/// The views of a list of borrowed entries, in order.
pub open spec fn roster_view(roster: Seq<&AppointmentEntry>) -> Seq<EntryView> {
    Seq::new(roster.len(), |i: int| roster[i]@)
}

/// The position of the first entry, from `i` on, that carries player id
/// `id`.
pub open spec fn first_entry_from(entries: Seq<EntryView>, i: int, id: Seq<char>) -> Option<int>
    decreases entries.len() - i,
{
    if i < 0 || i >= entries.len() {
        None
    } else if entries[i].player_id == id {
        Some(i)
    } else {
        first_entry_from(entries, i + 1, id)
    }
}

/// The first entry found carries the id, and where none is found no
/// entry from `i` on carries it.
pub proof fn lemma_first_entry(entries: Seq<EntryView>, i: int, id: Seq<char>)
    requires
        0 <= i,
    ensures
        match first_entry_from(entries, i, id) {
            Some(k) => i <= k < entries.len() && entries[k].player_id == id,
            None => forall|j: int| i <= j < entries.len() ==> (#[trigger] entries[j]).player_id != id,
        },
    decreases entries.len() - i,
{
    if i < entries.len() && entries[i].player_id != id {
        lemma_first_entry(entries, i + 1, id);
    }
}

/// Finds the first entry that carries player id `id`.
pub fn first_entry_of(entries: &[AppointmentEntry], id: &String) -> (r: Option<usize>)
    ensures
        match r {
            Some(k) => first_entry_from(entries_view(entries@), 0, id@) == Some(k as int) && k
                < entries@.len(),
            None => first_entry_from(entries_view(entries@), 0, id@).is_none(),
        },
{
    let ghost all = entries_view(entries@);
    let mut i: usize = 0;
    while i < entries.len()
        invariant
            i <= entries.len(),
            all == entries_view(entries@),
            first_entry_from(all, 0, id@) == first_entry_from(all, i as int, id@),
        decreases entries.len() - i,
    {
        if entries[i].player_id == *id {
            return Some(i);
        }
        i += 1;
    }
    None
}

/// The highest slot of the fixed table.
pub const LAST_FIXED_SLOT: u8 = 49;

/// The part of `s` before its first opening bracket, where a note may
/// begin.
pub open spec fn before_note(s: Seq<char>) -> Seq<char> {
    s.take(position_from(s, '(', 0))
}

/// A time as it is compared and read: without a note in brackets behind
/// it, and without the white space around it.
pub open spec fn clean_time(s: Seq<char>) -> Seq<char> {
    trimmed(before_note(s))
}

/// The slot of the fixed table that begins `total` minutes after
/// midnight, or covers that minute from the third slot on.
pub open spec fn fixed_slot_of(total: nat) -> Option<u8> {
    if total == 0 {
        Some(1u8)
    } else if total == 15 {
        Some(2u8)
    } else if total == 45 {
        Some(3u8)
    } else if total > 45 && 3 + (total - 45) / 30 <= LAST_FIXED_SLOT {
        Some((3 + (total - 45) / 30) as u8)
    } else {
        None
    }
}

/// The slot of the fixed table that a time text names.
pub open spec fn time_to_slot_spec(s: Seq<char>) -> Option<u8> {
    match clock_parts(clean_time(s)) {
        Some((hours, minutes)) => fixed_slot_of((hours * 60 + minutes) as nat),
        None => None,
    }
}

/// The slot of the first row of `table`, from row `i` on, whose label is
/// `label` once the white space around it is gone.
pub open spec fn table_slot_from(table: Seq<(u8, Seq<char>)>, label: Seq<char>, i: int) -> Option<u8>
    decreases table.len() - i,
{
    if i < 0 || i >= table.len() {
        None
    } else if trimmed(table[i].1) == label {
        Some(table[i].0)
    } else {
        table_slot_from(table, label, i + 1)
    }
}

/// The slot that a time text names in a custom time table.
pub open spec fn table_slot_spec(s: Seq<char>, table: Seq<(u8, Seq<char>)>) -> Option<u8> {
    table_slot_from(table, clean_time(s), 0)
}

/// The pieces of `s` between its separators.
pub open spec fn pieces(s: Seq<char>, sep: char) -> Seq<Seq<char>>
    decreases s.len(),
{
    let p = position_from(s, sep, 0);
    if 0 <= p < s.len() {
        seq![s.take(p)] + pieces(s.skip(p + 1), sep)
    } else {
        seq![s]
    }
}

/// The slot that one piece of an availability answer names: by the
/// custom table where there is one, by the fixed table otherwise.
pub open spec fn piece_slot(piece: Seq<char>, custom: Option<Seq<(u8, Seq<char>)>>) -> Option<u8> {
    match custom {
        Some(table) => table_slot_spec(trimmed(piece), table),
        None => time_to_slot_spec(trimmed(piece)),
    }
}

/// Whether one of `parts` names `slot`.
pub open spec fn names_slot(
    parts: Seq<Seq<char>>,
    custom: Option<Seq<(u8, Seq<char>)>>,
    slot: u8,
) -> bool {
    exists|i: int| 0 <= i < parts.len() && piece_slot(#[trigger] parts[i], custom) == Some(slot)
}

/// The slots below `below` that one of `parts` names, in ascending
/// order.
pub open spec fn named_slots(
    parts: Seq<Seq<char>>,
    custom: Option<Seq<(u8, Seq<char>)>>,
    below: int,
) -> Seq<u8>
    decreases below,
{
    if below <= 0 {
        Seq::empty()
    } else {
        let init = named_slots(parts, custom, below - 1);
        if names_slot(parts, custom, (below - 1) as u8) {
            init.push((below - 1) as u8)
        } else {
            init
        }
    }
}

/// The slots that a comma-separated availability answer names, each
/// once, in ascending order.
pub open spec fn parse_time_slots_spec(s: Seq<char>, custom: Option<Seq<(u8, Seq<char>)>>) -> Seq<
    u8,
> {
    named_slots(pieces(s, ','), custom, 256)
}

/// The content of an optional custom time table.
pub open spec fn optional_table(custom: Option<&[(u8, String)]>) -> Option<Seq<(u8, Seq<char>)>> {
    match custom {
        Some(table) => Some(table_view(table@)),
        None => None,
    }
}

/// Whether `s` spells `word`, which is in lower case, in capitals or
/// small letters.
pub open spec fn spells(s: Seq<char>, word: Seq<char>) -> bool {
    s.len() == word.len() && forall|i: int| 0 <= i < s.len() ==> fold_char(#[trigger] s[i]) == word[i]
}

/// Whether an answer means yes: "yes", "true" or "1", in capitals or
/// small letters, with white space around it or not.
pub open spec fn parse_bool_spec(s: Seq<char>) -> bool {
    let answer = trimmed(s);
    spells(answer, seq!['y', 'e', 's']) || spells(answer, seq!['t', 'r', 'u', 'e']) || spells(
        answer,
        seq!['1'],
    )
}

/// The number that an answer holds, zero where it holds none.
pub open spec fn parse_number_spec(s: Seq<char>) -> u32 {
    match parse_u32_spec(trimmed(s)) {
        Some(n) => n,
        None => 0,
    }
}

/// Finds the cleaned form of the time text `chars`.
fn clean_chars(chars: &[char]) -> (clean: Vec<char>)
    ensures
        clean@ == clean_time(chars@),
{
    let n = chars.len();
    assert(chars@.take(n as int) =~= chars@);
    let note = find_char(chars, '(', 0, n);
    assert(chars@.subrange(0, note as int) =~= before_note(chars@));
    let (a, b) = trim_bounds(chars, 0, note);
    slice_chars(chars, a, b)
}

/// Maps total minutes after midnight to a slot of the fixed table.
fn fixed_slot(total: u64) -> (r: Option<u8>)
    ensures
        r == fixed_slot_of(total as nat),
{
    if total == 0 {
        Some(1)
    } else if total == 15 {
        Some(2)
    } else if total == 45 {
        Some(3)
    } else if total > 45 {
        let slot: u64 = 3 + (total - 45) / 30;
        if slot <= 49 {
            Some(slot as u8)
        } else {
            None
        }
    } else {
        None
    }
}

/// Maps the characters of a time text to a slot of the fixed table.
fn slot_of_chars(chars: &[char]) -> (r: Option<u8>)
    ensures
        r == time_to_slot_spec(chars@),
{
    let clean = clean_chars(chars);
    assert(clean@.subrange(0, clean@.len() as int) =~= clean@);
    match read_clock_parts(clean.as_slice(), 0, clean.len()) {
        Some((hours, minutes)) => fixed_slot(hours as u64 * 60 + minutes as u64),
        None => None,
    }
}

/// Converts a time text such as "01:45" to its slot of the fixed table.
/// A note in brackets behind the time is passed over.
pub fn time_to_slot(time_str: &str) -> (r: Option<u8>)
    ensures
        r == time_to_slot_spec(time_str@),
{
    let chars = chars_of(time_str);
    slot_of_chars(chars.as_slice())
}

/// The slot that a configured time names: its slot in the custom table
/// where the table has the time, and its slot of the fixed table
/// otherwise.  The time is taken without the white space around it.
pub open spec fn configured_slot_spec(s: Seq<char>, table: Seq<(u8, Seq<char>)>) -> Option<u8> {
    match table_slot_from(table, trimmed(s), 0) {
        Some(slot) => Some(slot),
        None => match clock_parts(trimmed(s)) {
            Some((hours, minutes)) => fixed_slot_of((hours * 60 + minutes) as nat),
            None => None,
        },
    }
}

/// Converts a configured time to its slot: by the custom table where the
/// table has the time, by the fixed table otherwise.
pub fn configured_time_slot(time_str: &str, time_slots: &[(u8, String)]) -> (r: Option<u8>)
    ensures
        r == configured_slot_spec(time_str@, table_view(time_slots@)),
{
    let chars = chars_of(time_str);
    assert(chars@.subrange(0, chars@.len() as int) =~= chars@);
    let (a, b) = trim_bounds(chars.as_slice(), 0, chars.len());
    let clean = slice_chars(chars.as_slice(), a, b);
    let ghost table = table_view(time_slots@);
    let mut i: usize = 0;
    while i < time_slots.len()
        invariant
            i <= time_slots.len(),
            table == table_view(time_slots@),
            clean@ == trimmed(time_str@),
            table_slot_from(table, clean@, 0) == table_slot_from(table, clean@, i as int),
        decreases time_slots.len() - i,
    {
        let label = chars_of(time_slots[i].1.as_str());
        assert(label@.subrange(0, label@.len() as int) =~= label@);
        let (from, to) = trim_bounds(label.as_slice(), 0, label.len());
        if same_chars(label.as_slice(), from, to, clean.as_slice()) {
            return Some(time_slots[i].0);
        }
        i += 1;
    }
    assert(clean@.subrange(0, clean@.len() as int) =~= clean@);
    match read_clock_parts(clean.as_slice(), 0, clean.len()) {
        Some((hours, minutes)) => fixed_slot(hours as u64 * 60 + minutes as u64),
        None => None,
    }
}

/// Maps the characters of a time text to a slot of a custom time table.
fn table_slot_of_chars(chars: &[char], time_slots: &[(u8, String)]) -> (r: Option<u8>)
    ensures
        r == table_slot_spec(chars@, table_view(time_slots@)),
{
    let clean = clean_chars(chars);
    let ghost table = table_view(time_slots@);
    let mut i: usize = 0;
    while i < time_slots.len()
        invariant
            i <= time_slots.len(),
            table == table_view(time_slots@),
            clean@ == clean_time(chars@),
            table_slot_from(table, clean@, 0) == table_slot_from(table, clean@, i as int),
        decreases time_slots.len() - i,
    {
        let label = chars_of(time_slots[i].1.as_str());
        assert(label@.subrange(0, label@.len() as int) =~= label@);
        let (a, b) = trim_bounds(label.as_slice(), 0, label.len());
        if same_chars(label.as_slice(), a, b, clean.as_slice()) {
            return Some(time_slots[i].0);
        }
        i += 1;
    }
    None
}

/// Converts a time text to its slot of a custom time table: the slot of
/// the first row with that time.
pub fn time_string_to_slot_number(time_str: &str, time_slots: &[(u8, String)]) -> (r: Option<u8>)
    ensures
        r == table_slot_spec(time_str@, table_view(time_slots@)),
{
    let chars = chars_of(time_str);
    table_slot_of_chars(chars.as_slice(), time_slots)
}

proof fn lemma_position_shift(s: Seq<char>, c: char, from: int, i: int)
    requires
        0 <= from <= i <= s.len(),
    ensures
        position_from(s, c, i) == from + position_from(s.skip(from), c, i - from),
    decreases s.len() - i,
{
    if i < s.len() && s[i] != c {
        lemma_position_shift(s, c, from, i + 1);
    }
}

proof fn lemma_names_more(
    parts: Seq<Seq<char>>,
    piece: Seq<char>,
    custom: Option<Seq<(u8, Seq<char>)>>,
    slot: u8,
)
    ensures
        names_slot(parts.push(piece), custom, slot) == (names_slot(parts, custom, slot)
            || piece_slot(piece, custom) == Some(slot)),
{
    let more = parts.push(piece);
    if names_slot(parts, custom, slot) {
        let i = choose|i: int|
            0 <= i < parts.len() && piece_slot(#[trigger] parts[i], custom) == Some(slot);
        assert(more[i] == parts[i]);
    }
    if piece_slot(piece, custom) == Some(slot) {
        assert(more[parts.len() as int] == piece);
    }
    if names_slot(more, custom, slot) {
        let i = choose|i: int|
            0 <= i < more.len() && piece_slot(#[trigger] more[i], custom) == Some(slot);
        if i < parts.len() {
            assert(more[i] == parts[i]);
        }
    }
}

/// Reads a comma-separated availability answer: the slots that its times
/// name, each once, in ascending order.  Times are looked up in
/// `custom_time_slots` where it is given, in the fixed table otherwise;
/// times that name no slot are passed over.
pub fn parse_time_slots(time_string: &str, custom_time_slots: Option<&[(u8, String)]>) -> (slots: Vec<
    u8,
>)
    ensures
        slots@ == parse_time_slots_spec(time_string@, optional_table(custom_time_slots)),
{
    let chars = chars_of(time_string);
    let n = chars.len();
    let ghost custom = optional_table(custom_time_slots);
    let ghost all = pieces(chars@, ',');
    let mut seen: HashSet<u8> = HashSet::new();
    let mut start: usize = 0;
    let ghost mut done: Seq<Seq<char>> = Seq::empty();
    proof {
        assert(chars@.skip(0) =~= chars@);
        assert(done + pieces(chars@.skip(0), ',') =~= all);
    }
    loop
        invariant_except_break
            start <= n,
            all == done + pieces(chars@.skip(start as int), ','),
        invariant
            n == chars@.len(),
            chars@ == time_string@,
            custom == optional_table(custom_time_slots),
            all == pieces(chars@, ','),
            forall|slot: u8| seen@.contains(slot) == names_slot(done, custom, slot),
        ensures
            done == all,
        decreases n - start,
    {
        let ghost rest = chars@.skip(start as int);
        let end = find_char(chars.as_slice(), ',', start, n);
        let piece = slice_chars(chars.as_slice(), start, end);
        proof {
            assert(chars@.take(n as int) =~= chars@);
            lemma_position_shift(chars@, ',', start as int, start as int);
            assert(position_from(rest, ',', 0) == end - start);
            assert(piece@ =~= rest.take(end - start));
        }
        let (a, b) = {
            assert(piece@.subrange(0, piece@.len() as int) =~= piece@);
            trim_bounds(piece.as_slice(), 0, piece.len())
        };
        let core = slice_chars(piece.as_slice(), a, b);
        let found = match custom_time_slots {
            Some(table) => table_slot_of_chars(core.as_slice(), table),
            None => slot_of_chars(core.as_slice()),
        };
        assert(found == piece_slot(piece@, custom));
        let ghost marked = seen@;
        match found {
            Some(slot) => {
                seen.insert(slot);
            },
            None => {},
        }
        proof {
            let more = done.push(piece@);
            assert forall|slot: u8| seen@.contains(slot) == names_slot(more, custom, slot) by {
                lemma_names_more(done, piece@, custom, slot);
                assert(marked.contains(slot) == names_slot(done, custom, slot));
                if found == Some(slot) {
                    assert(seen@.contains(slot));
                } else {
                    assert(seen@.contains(slot) == marked.contains(slot));
                }
            }
            done = more;
        }
        if end >= n {
            proof {
                assert(pieces(rest, ',') =~= seq![rest]);
                assert(piece@ =~= rest);
                assert(done =~= all);
            }
            break ;
        }
        proof {
            assert(rest.skip(end - start + 1) =~= chars@.skip(end + 1));
            assert(done + pieces(chars@.skip(end + 1), ',') =~= all);
        }
        start = end + 1;
    }
    let mut slots: Vec<u8> = Vec::new();
    let mut s: usize = 0;
    while s < 256
        invariant
            s <= 256,
            forall|slot: u8| seen@.contains(slot) == names_slot(all, custom, slot),
            slots@ == named_slots(all, custom, s as int),
        decreases 256 - s,
    {
        if seen.contains(&(s as u8)) {
            slots.push(s as u8);
        }
        s += 1;
    }
    slots
}

/// Tells whether `chars[from..to]` spells the lower-case `word` in
/// capitals or small letters.
fn spells_word(chars: &[char], from: usize, to: usize, word: &[char]) -> (r: bool)
    requires
        from <= to <= chars@.len(),
    ensures
        r == spells(chars@.subrange(from as int, to as int), word@),
{
    let ghost part = chars@.subrange(from as int, to as int);
    if to - from != word.len() {
        return false;
    }
    let mut i: usize = 0;
    while i < word.len()
        invariant
            i <= word.len(),
            from <= to <= chars@.len(),
            to - from == word@.len(),
            part == chars@.subrange(from as int, to as int),
            forall|k: int| 0 <= k < i ==> fold_char(#[trigger] part[k]) == word@[k],
        decreases word.len() - i,
    {
        if fold(chars[from + i]) != word[i] {
            assert(fold_char(part[i as int]) != word@[i as int]);
            return false;
        }
        i += 1;
    }
    true
}

/// Reads a yes-or-no answer: "yes", "true" and "1" mean yes, in capitals
/// or small letters, and everything else means no.
pub fn parse_bool(value: &str) -> (r: bool)
    ensures
        r == parse_bool_spec(value@),
{
    let chars = chars_of(value);
    assert(chars@.subrange(0, chars@.len() as int) =~= chars@);
    let (a, b) = trim_bounds(chars.as_slice(), 0, chars.len());
    let yes: [char; 3] = ['y', 'e', 's'];
    let truth: [char; 4] = ['t', 'r', 'u', 'e'];
    let one: [char; 1] = ['1'];
    assert(yes@ =~= seq!['y', 'e', 's']);
    assert(truth@ =~= seq!['t', 'r', 'u', 'e']);
    assert(one@ =~= seq!['1']);
    spells_word(chars.as_slice(), a, b, yes.as_slice()) || spells_word(
        chars.as_slice(),
        a,
        b,
        truth.as_slice(),
    ) || spells_word(chars.as_slice(), a, b, one.as_slice())
}

/// Reads a number, zero where the answer is empty or no number.
pub fn parse_number(value: &str) -> (r: u32)
    ensures
        r == parse_number_spec(value@),
{
    let chars = chars_of(value);
    assert(chars@.subrange(0, chars@.len() as int) =~= chars@);
    let (a, b) = trim_bounds(chars.as_slice(), 0, chars.len());
    match parse_u32(chars.as_slice(), a, b) {
        Some(n) => n,
        None => 0,
    }
}

} // verus!
