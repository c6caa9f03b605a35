//! From the rows of a sign-up table to candidate records: which column
//! holds what, what a row says, and how a later row replaces an earlier
//! one of the same player.

use vstd::prelude::*;
use crate::parser::{
    entries_view, first_entry_from, first_entry_of, lemma_first_entry, optional_table, parse_bool,
    parse_bool_spec, parse_number, parse_number_spec, parse_time_slots, parse_time_slots_spec,
    AppointmentEntry, EntryView,
};
use crate::schedule::census::ids_distinct;
use crate::schedule::types::strings_view;
use crate::text::{
    chars_of, contains_text, fold_chars, folded, has_text, same_chars, string_of, trim_bounds,
    trimmed,
};

verus! {

/// The fewest fields a row must have to be read.
pub const MIN_RECORD_FIELDS: usize = 16;

/// How a column is recognised by its heading.
#[derive(Debug, Clone, Copy, PartialEq, Eq, Structural)]
pub enum HeaderRule {
    /// The heading holds the first phrase.
    One,
    /// The heading holds the first and the second phrase.
    Both,
    /// The heading holds the first phrase and not the second.
    FirstOnly,
}

/// The column of each answer.
#[derive(Debug, Clone, Copy, PartialEq, Eq, Structural)]
pub struct ColumnLayout {
    pub alliance: usize,
    pub custom_alliance: usize,
    pub name: usize,
    pub player_id: usize,
    pub construction_want: usize,
    pub construction_speedups: usize,
    pub construction_truegold: usize,
    pub construction_times: usize,
    pub research_want: usize,
    pub research_speedups: usize,
    pub research_truegold_dust: usize,
    pub research_times: usize,
    pub troops_want: usize,
    pub troops_speedups: usize,
    pub troops_times: usize,
}

/// Whether a heading fits a rule.
pub open spec fn heading_fits(h: Seq<char>, first: Seq<char>, second: Seq<char>, rule: HeaderRule) -> bool {
    has_text(h, first) && match rule {
        HeaderRule::One => true,
        HeaderRule::Both => has_text(h, second),
        HeaderRule::FirstOnly => !has_text(h, second),
    }
}

/// The first column, from `i` on, whose heading fits the rule; the fallback
/// where none does.
pub open spec fn column_from(
    headers: Seq<Seq<char>>,
    first: Seq<char>,
    second: Seq<char>,
    rule: HeaderRule,
    fallback: usize,
    i: int,
) -> usize
    decreases headers.len() - i,
{
    if i < 0 || i >= headers.len() {
        fallback
    } else if heading_fits(headers[i], first, second, rule) {
        i as usize
    } else {
        column_from(headers, first, second, rule, fallback, i + 1)
    }
}

/// The column whose heading fits the rule.
pub open spec fn column_of(
    headers: Seq<Seq<char>>,
    first: Seq<char>,
    second: Seq<char>,
    rule: HeaderRule,
    fallback: usize,
) -> usize {
    column_from(headers, first, second, rule, fallback, 0)
}

/// The layout that a row of headings gives.
pub open spec fn layout_of(h: Seq<Seq<char>>) -> ColumnLayout {
    ColumnLayout {
        alliance: column_of(h, "alliance"@, ""@, HeaderRule::One, 1),
        custom_alliance: column_of(h, "Non of the above"@, "type it here"@, HeaderRule::Both, 2),
        name: column_of(h, "character name"@, ""@, HeaderRule::One, 3),
        player_id: column_of(h, "player ID"@, ""@, HeaderRule::One, 4),
        construction_want: column_of(
            h,
            "Construction day appointment"@,
            ""@,
            HeaderRule::One,
            6,
        ),
        construction_speedups: column_of(
            h,
            "Construction day"@,
            "speedups"@,
            HeaderRule::Both,
            7,
        ),
        construction_truegold: column_of(h, "truegold"@, "dust"@, HeaderRule::FirstOnly, 8),
        construction_times: column_of(
            h,
            "Construction day appointment"@,
            "times"@,
            HeaderRule::Both,
            9,
        ),
        research_want: column_of(
            h,
            "Research day appointment"@,
            "times"@,
            HeaderRule::FirstOnly,
            10,
        ),
        research_speedups: column_of(h, "Research day"@, "speedups"@, HeaderRule::Both, 11),
        research_truegold_dust: column_of(h, "truegold dust"@, ""@, HeaderRule::One, 12),
        research_times: column_of(h, "Research day appointment"@, "times"@, HeaderRule::Both, 13),
        troops_want: column_of(
            h,
            "Troops Training day appointment"@,
            "times"@,
            HeaderRule::FirstOnly,
            13,
        ),
        troops_speedups: column_of(h, "Troops Training day"@, "speedups"@, HeaderRule::Both, 14),
        troops_times: column_of(
            h,
            "Troops Training day appointment"@,
            "times"@,
            HeaderRule::Both,
            15,
        ),
    }
}

/// Tells whether a heading fits a rule.
fn fits(h: &[char], first: &[char], second: &[char], rule: HeaderRule) -> (r: bool)
    ensures
        r == heading_fits(h@, first@, second@, rule),
{
    if !contains_text(h, first) {
        return false;
    }
    match rule {
        HeaderRule::One => true,
        HeaderRule::Both => contains_text(h, second),
        HeaderRule::FirstOnly => !contains_text(h, second),
    }
}

/// Finds the column whose heading fits the rule.
pub fn find_column(headers: &[String], first: &str, second: &str, rule: HeaderRule, fallback: usize) -> (r:
    usize)
    ensures
        r == column_of(strings_view(headers@), first@, second@, rule, fallback),
{
    let a = chars_of(first);
    let b = chars_of(second);
    let ghost hs = strings_view(headers@);
    let mut i: usize = 0;
    while i < headers.len()
        invariant
            i <= headers.len(),
            hs == strings_view(headers@),
            a@ == first@,
            b@ == second@,
            column_from(hs, first@, second@, rule, fallback, 0) == column_from(
                hs,
                first@,
                second@,
                rule,
                fallback,
                i as int,
            ),
        decreases headers.len() - i,
    {
        let h = chars_of(headers[i].as_str());
        if fits(h.as_slice(), a.as_slice(), b.as_slice(), rule) {
            return i;
        }
        i += 1;
    }
    fallback
}

/// Works out which column holds what from the row of headings.
pub fn find_columns(headers: &[String]) -> (layout: ColumnLayout)
    ensures
        layout == layout_of(strings_view(headers@)),
{
    ColumnLayout {
        alliance: find_column(headers, "alliance", "", HeaderRule::One, 1),
        custom_alliance: find_column(
            headers,
            "Non of the above",
            "type it here",
            HeaderRule::Both,
            2,
        ),
        name: find_column(headers, "character name", "", HeaderRule::One, 3),
        player_id: find_column(headers, "player ID", "", HeaderRule::One, 4),
        construction_want: find_column(
            headers,
            "Construction day appointment",
            "",
            HeaderRule::One,
            6,
        ),
        construction_speedups: find_column(
            headers,
            "Construction day",
            "speedups",
            HeaderRule::Both,
            7,
        ),
        construction_truegold: find_column(headers, "truegold", "dust", HeaderRule::FirstOnly, 8),
        construction_times: find_column(
            headers,
            "Construction day appointment",
            "times",
            HeaderRule::Both,
            9,
        ),
        research_want: find_column(
            headers,
            "Research day appointment",
            "times",
            HeaderRule::FirstOnly,
            10,
        ),
        research_speedups: find_column(headers, "Research day", "speedups", HeaderRule::Both, 11),
        research_truegold_dust: find_column(headers, "truegold dust", "", HeaderRule::One, 12),
        research_times: find_column(
            headers,
            "Research day appointment",
            "times",
            HeaderRule::Both,
            13,
        ),
        troops_want: find_column(
            headers,
            "Troops Training day appointment",
            "times",
            HeaderRule::FirstOnly,
            13,
        ),
        troops_speedups: find_column(
            headers,
            "Troops Training day",
            "speedups",
            HeaderRule::Both,
            14,
        ),
        troops_times: find_column(
            headers,
            "Troops Training day appointment",
            "times",
            HeaderRule::Both,
            15,
        ),
    }
}

/// The construction score: two thousand for each truegold and thirty for
/// each hour of speedups.
pub open spec fn construction_score_spec(truegold: u32, speedups: u32) -> nat {
    (truegold * 2000 + speedups * 30) as nat
}

/// The research score: a thousand for each truegold dust and thirty for
/// each hour of speedups.
pub open spec fn research_score_spec(dust: u32, speedups: u32) -> nat {
    (dust * 1000 + speedups * 30) as nat
}

/// Computes the construction score, or `None` where it does not fit in 32
/// bits.
pub fn construction_score_of(truegold: u32, speedups: u32) -> (r: Option<u32>)
    ensures
        match r {
            Some(score) => score == construction_score_spec(truegold, speedups),
            None => construction_score_spec(truegold, speedups) > u32::MAX,
        },
{
    let score: u64 = truegold as u64 * 2000 + speedups as u64 * 30;
    if score > 0xffff_ffff {
        None
    } else {
        Some(score as u32)
    }
}

/// Computes the research score, or `None` where it does not fit in 32 bits.
pub fn research_score_of(dust: u32, speedups: u32) -> (r: Option<u32>)
    ensures
        match r {
            Some(score) => score == research_score_spec(dust, speedups),
            None => research_score_spec(dust, speedups) > u32::MAX,
        },
{
    let score: u64 = dust as u64 * 1000 + speedups as u64 * 30;
    if score > 0xffff_ffff {
        None
    } else {
        Some(score as u32)
    }
}

/// The custom time tables of the three days, where there are any.
pub struct DayTables {
    pub construction: Option<Seq<(u8, Seq<char>)>>,
    pub research: Option<Seq<(u8, Seq<char>)>>,
    pub troops: Option<Seq<(u8, Seq<char>)>>,
}

/// What a row amounts to.
pub enum RowOutcome {
    /// The row is too short, or lacks a name or a player id.
    Skipped,
    /// A score of the row does not fit in 32 bits.
    ScoreTooLarge,
    /// The row's candidate record.
    Entry(AppointmentEntry),
}

/// The mathematical content of an [`RowOutcome`].
pub enum RowOutcomeView {
    Skipped,
    ScoreTooLarge,
    Entry(EntryView),
}

impl View for RowOutcome {
    type V = RowOutcomeView;

    open spec fn view(&self) -> RowOutcomeView {
        match self {
            RowOutcome::Skipped => RowOutcomeView::Skipped,
            RowOutcome::ScoreTooLarge => RowOutcomeView::ScoreTooLarge,
            RowOutcome::Entry(e) => RowOutcomeView::Entry(e@),
        }
    }
}

/// The field of a row at a column; empty where the row is shorter.
pub open spec fn field(record: Seq<Seq<char>>, column: usize) -> Seq<char> {
    if column < record.len() {
        record[column as int]
    } else {
        Seq::empty()
    }
}

/// Whether an alliance answer says that the alliance is not on the list, so
/// that the custom answer counts.
pub open spec fn is_unlisted(alliance: Seq<char>) -> bool {
    has_text(folded(alliance), "non of the above"@) || folded(alliance) == "non"@
}

/// The alliance that a row names: the custom answer where the listed answer
/// points to it and it is not blank, the listed answer otherwise.
pub open spec fn record_alliance(record: Seq<Seq<char>>, layout: ColumnLayout) -> Seq<char> {
    let listed = trimmed(field(record, layout.alliance));
    let custom = trimmed(field(record, layout.custom_alliance));
    if is_unlisted(listed) && custom.len() > 0 {
        custom
    } else {
        listed
    }
}

/// What a row amounts to.
pub open spec fn record_entry(record: Seq<Seq<char>>, layout: ColumnLayout, tables: DayTables) -> RowOutcomeView {
    let name = trimmed(field(record, layout.name));
    let player_id = trimmed(field(record, layout.player_id));
    let construction_speedups = parse_number_spec(field(record, layout.construction_speedups));
    let research_speedups = parse_number_spec(field(record, layout.research_speedups));
    let construction_truegold = parse_number_spec(field(record, layout.construction_truegold));
    let research_truegold_dust = parse_number_spec(field(record, layout.research_truegold_dust));
    let construction_score = construction_score_spec(construction_truegold, construction_speedups);
    let research_score = research_score_spec(research_truegold_dust, research_speedups);
    if record.len() < MIN_RECORD_FIELDS || name.len() == 0 || player_id.len() == 0 {
        RowOutcomeView::Skipped
    } else if construction_score > u32::MAX || research_score > u32::MAX {
        RowOutcomeView::ScoreTooLarge
    } else {
        RowOutcomeView::Entry(
            EntryView {
                alliance: record_alliance(record, layout),
                name,
                player_id,
                wants_construction: parse_bool_spec(field(record, layout.construction_want)),
                wants_research: parse_bool_spec(field(record, layout.research_want)),
                wants_troops: parse_bool_spec(field(record, layout.troops_want)),
                construction_speedups,
                research_speedups,
                troops_speedups: parse_number_spec(field(record, layout.troops_speedups)),
                construction_truegold,
                construction_score: construction_score as u32,
                research_truegold_dust,
                research_score: research_score as u32,
                construction_available_slots: parse_time_slots_spec(
                    field(record, layout.construction_times),
                    tables.construction,
                ),
                research_available_slots: parse_time_slots_spec(
                    field(record, layout.research_times),
                    tables.research,
                ),
                troops_available_slots: parse_time_slots_spec(
                    field(record, layout.troops_times),
                    tables.troops,
                ),
            },
        )
    }
}

/// Gives the field of a row at a column; empty where the row is shorter.
pub fn field_of<'a>(record: &'a [String], column: usize) -> (text: &'a str)
    ensures
        text@ == field(strings_view(record@), column),
{
    if column < record.len() {
        record[column].as_str()
    } else {
        proof {
            reveal_strlit("");
        }
        let none: &'static str = "";
        assert(none@ =~= Seq::<char>::empty());
        none
    }
}

/// Gives a text without the white space around it.
pub fn trimmed_text(s: &str) -> (text: String)
    ensures
        text@ == trimmed(s@),
{
    let chars = chars_of(s);
    assert(chars@.subrange(0, chars@.len() as int) =~= chars@);
    let (a, b) = trim_bounds(chars.as_slice(), 0, chars.len());
    string_of(chars.as_slice(), a, b)
}

/// Tells whether a trimmed alliance answer says that the alliance is not on
/// the list.
fn alliance_is_unlisted(alliance: &str) -> (r: bool)
    ensures
        r == is_unlisted(alliance@),
{
    let chars = chars_of(alliance);
    assert(chars@.subrange(0, chars@.len() as int) =~= chars@);
    let low = fold_chars(chars.as_slice(), 0, chars.len());
    let phrase = chars_of("non of the above");
    let word = chars_of("non");
    assert(low@.subrange(0, low@.len() as int) =~= low@);
    contains_text(low.as_slice(), phrase.as_slice()) || same_chars(
        low.as_slice(),
        0,
        low.len(),
        word.as_slice(),
    )
}

/// Gives the alliance that a row names.
fn alliance_of(record: &[String], layout: &ColumnLayout) -> (text: String)
    ensures
        text@ == record_alliance(strings_view(record@), *layout),
{
    let listed = trimmed_text(field_of(record, layout.alliance));
    if alliance_is_unlisted(listed.as_str()) {
        let custom = trimmed_text(field_of(record, layout.custom_alliance));
        if !custom.as_str().is_empty() {
            return custom;
        }
    }
    listed
}

/// The content of three optional custom time tables.
pub open spec fn tables_of(
    construction: Option<&[(u8, String)]>,
    research: Option<&[(u8, String)]>,
    troops: Option<&[(u8, String)]>,
) -> DayTables {
    DayTables {
        construction: optional_table(construction),
        research: optional_table(research),
        troops: optional_table(troops),
    }
}

/// Reads one row: a row with fewer than sixteen fields, or without a name
/// or a player id, is skipped; otherwise the row's answers become a
/// candidate record, with the scores computed from them.
pub fn entry_from_record(
    record: &[String],
    layout: &ColumnLayout,
    construction_table: Option<&[(u8, String)]>,
    research_table: Option<&[(u8, String)]>,
    troops_table: Option<&[(u8, String)]>,
) -> (r: RowOutcome)
    ensures
        r@ == record_entry(
            strings_view(record@),
            *layout,
            tables_of(construction_table, research_table, troops_table),
        ),
{
    if record.len() < MIN_RECORD_FIELDS {
        return RowOutcome::Skipped;
    }
    let name = trimmed_text(field_of(record, layout.name));
    let player_id = trimmed_text(field_of(record, layout.player_id));
    if name.as_str().is_empty() || player_id.as_str().is_empty() {
        return RowOutcome::Skipped;
    }
    let construction_speedups = parse_number(field_of(record, layout.construction_speedups));
    let research_speedups = parse_number(field_of(record, layout.research_speedups));
    let construction_truegold = parse_number(field_of(record, layout.construction_truegold));
    let research_truegold_dust = parse_number(field_of(record, layout.research_truegold_dust));
    let construction_score = match construction_score_of(
        construction_truegold,
        construction_speedups,
    ) {
        Some(score) => score,
        None => {
            return RowOutcome::ScoreTooLarge;
        },
    };
    let research_score = match research_score_of(research_truegold_dust, research_speedups) {
        Some(score) => score,
        None => {
            return RowOutcome::ScoreTooLarge;
        },
    };
    RowOutcome::Entry(
        AppointmentEntry {
            alliance: alliance_of(record, layout),
            name,
            player_id,
            wants_construction: parse_bool(field_of(record, layout.construction_want)),
            wants_research: parse_bool(field_of(record, layout.research_want)),
            wants_troops: parse_bool(field_of(record, layout.troops_want)),
            construction_speedups,
            research_speedups,
            troops_speedups: parse_number(field_of(record, layout.troops_speedups)),
            construction_truegold,
            construction_score,
            research_truegold_dust,
            research_score,
            construction_available_slots: parse_time_slots(
                field_of(record, layout.construction_times),
                construction_table,
            ),
            research_available_slots: parse_time_slots(
                field_of(record, layout.research_times),
                research_table,
            ),
            troops_available_slots: parse_time_slots(
                field_of(record, layout.troops_times),
                troops_table,
            ),
        },
    )
}

/// The list after a record has come in: it replaces the record of the same
/// player where there is one, and is added at the end otherwise.
pub open spec fn merged(list: Seq<EntryView>, e: EntryView) -> Seq<EntryView> {
    match first_entry_from(list, 0, e.player_id) {
        Some(k) => list.update(k, e),
        None => list.push(e),
    }
}

/// Takes a record into the list: a later record of a player replaces the
/// earlier one entirely.
pub fn merge_entry(entries: &mut Vec<AppointmentEntry>, entry: AppointmentEntry)
    ensures
        entries_view(final(entries)@) == merged(entries_view(old(entries)@), entry@),
{
    let ghost before = entries_view(entries@);
    match first_entry_of(entries.as_slice(), &entry.player_id) {
        Some(k) => {
            entries.set(k, entry);
            assert(entries_view(entries@) =~= before.update(k as int, entry@));
        },
        None => {
            entries.push(entry);
            assert(entries_view(entries@) =~= before.push(entry@));
        },
    }
}

/// A list without two records of a player stays so when a record comes in,
/// and holds the record that came in.
pub proof fn law_merge_keeps_ids_distinct(list: Seq<EntryView>, e: EntryView)
    requires
        ids_distinct(list),
    ensures
        ids_distinct(merged(list, e)),
        exists|k: int| 0 <= k < merged(list, e).len() && merged(list, e)[k] == e,
{
    let after = merged(list, e);
    lemma_first_entry(list, 0, e.player_id);
    match first_entry_from(list, 0, e.player_id) {
        Some(k) => {
            assert(after[k] == e);
            assert forall|i: int, j: int| 0 <= i < j < after.len() implies (
            #[trigger] after[i]).player_id != (#[trigger] after[j]).player_id by {
                assert(after[i].player_id == list[i].player_id);
                assert(after[j].player_id == list[j].player_id);
            }
        },
        None => {
            assert(after[list.len() as int] == e);
            assert forall|i: int, j: int| 0 <= i < j < after.len() implies (
            #[trigger] after[i]).player_id != (#[trigger] after[j]).player_id by {
                if j < list.len() {
                    assert(after[i] == list[i] && after[j] == list[j]);
                } else {
                    assert(after[i] == list[i]);
                }
            }
        },
    }
}

} // verus!
