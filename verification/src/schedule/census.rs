//! Counting player ids in lists of candidates, to show that selecting,
//! ranking and joining lists never duplicates a player.

use vstd::prelude::*;
use crate::parser::EntryView;
use super::construction::select_favoured;
use super::generic::{by_score, score_keys, without_player};
use super::ordering::{insertion_point, lemma_sorted_step, sorted_by_keys, stable_order};
use super::types::Day;

verus! {

/// No two entries carry the same player id.
pub open spec fn ids_distinct(entries: Seq<EntryView>) -> bool {
    forall|i: int, j: int|
        0 <= i < j < entries.len() ==> (#[trigger] entries[i]).player_id != (
        #[trigger] entries[j]).player_id
}

/// One if `e` carries player id `id`, zero otherwise.
pub open spec fn carries(e: EntryView, id: Seq<char>) -> nat {
    if e.player_id == id {
        1
    } else {
        0
    }
}

/// How many entries of `s` carry player id `id`.
pub open spec fn occurrences(s: Seq<EntryView>, id: Seq<char>) -> nat
    decreases s.len(),
{
    if s.len() == 0 {
        0
    } else {
        occurrences(s.drop_last(), id) + carries(s.last(), id)
    }
}

/// One more entry adds what it carries.
pub proof fn lemma_occurrences_push(s: Seq<EntryView>, x: EntryView, id: Seq<char>)
    ensures
        occurrences(s.push(x), id) == occurrences(s, id) + carries(x, id),
{
    assert(s.push(x).drop_last() =~= s);
}

/// The counts of two lists add up when the lists are joined.
pub proof fn lemma_occurrences_concat(a: Seq<EntryView>, b: Seq<EntryView>, id: Seq<char>)
    ensures
        occurrences(a + b, id) == occurrences(a, id) + occurrences(b, id),
    decreases b.len(),
{
    if b.len() == 0 {
        assert(a + b =~= a);
    } else {
        lemma_occurrences_concat(a, b.drop_last(), id);
        assert((a + b).drop_last() =~= a + b.drop_last());
        assert((a + b).last() == b.last());
    }
}

/// An entry put in anywhere adds what it carries.
pub proof fn lemma_occurrences_insert(s: Seq<EntryView>, p: int, x: EntryView, id: Seq<char>)
    requires
        0 <= p <= s.len(),
    ensures
        occurrences(s.insert(p, x), id) == occurrences(s, id) + carries(x, id),
{
    let front = s.take(p);
    let back = s.skip(p);
    assert(s =~= front + back);
    assert(s.insert(p, x) =~= front.push(x) + back);
    lemma_occurrences_concat(front, back, id);
    lemma_occurrences_concat(front.push(x), back, id);
    lemma_occurrences_push(front, x, id);
}

/// Ranking keeps every count.
pub proof fn lemma_occurrences_sorted(
    items: Seq<EntryView>,
    keys: Seq<u64>,
    descending: bool,
    id: Seq<char>,
)
    requires
        items.len() == keys.len(),
    ensures
        occurrences(sorted_by_keys(items, keys, descending), id) == occurrences(items, id),
    decreases items.len(),
{
    if items.len() == 0 {
        assert(sorted_by_keys(items, keys, descending) =~= items);
    } else {
        lemma_sorted_step(items, keys, descending);
        lemma_occurrences_sorted(items.drop_last(), keys.drop_last(), descending, id);
        let shorter = sorted_by_keys(items.drop_last(), keys.drop_last(), descending);
        let p = insertion_point(
            keys,
            stable_order(keys.drop_last(), descending),
            keys.last(),
            descending,
        );
        lemma_occurrences_insert(shorter, p, items.last(), id);
    }
}

/// Ranking by score keeps every count.
pub proof fn lemma_occurrences_by_score(pool: Seq<EntryView>, day: Day, id: Seq<char>)
    ensures
        occurrences(by_score(pool, day), id) == occurrences(pool, id),
{
    lemma_occurrences_sorted(pool, score_keys(pool, day), true, id);
}

/// The favoured and the others together are the pool.
pub proof fn lemma_occurrences_select(pool: Seq<EntryView>, last: u8, id: Seq<char>)
    ensures
        occurrences(select_favoured(pool, last, true), id) + occurrences(
            select_favoured(pool, last, false),
            id,
        ) == occurrences(pool, id),
    decreases pool.len(),
{
    if pool.len() > 0 {
        lemma_occurrences_select(pool.drop_last(), last, id);
        lemma_occurrences_push(select_favoured(pool.drop_last(), last, true), pool.last(), id);
        lemma_occurrences_push(select_favoured(pool.drop_last(), last, false), pool.last(), id);
    }
}

/// Leaving a player out removes that player and nobody else.
pub proof fn lemma_occurrences_without(pool: Seq<EntryView>, gone: Seq<char>, id: Seq<char>)
    ensures
        occurrences(without_player(pool, gone), id) == if id == gone {
            0
        } else {
            occurrences(pool, id)
        },
    decreases pool.len(),
{
    if pool.len() > 0 {
        lemma_occurrences_without(pool.drop_last(), gone, id);
        lemma_occurrences_push(without_player(pool.drop_last(), gone), pool.last(), id);
    }
}

/// An id that some entry carries is counted.
pub proof fn lemma_occurrences_found(s: Seq<EntryView>, i: int, id: Seq<char>)
    requires
        0 <= i < s.len(),
        s[i].player_id == id,
    ensures
        occurrences(s, id) >= 1,
    decreases s.len(),
{
    if i < s.len() - 1 {
        lemma_occurrences_found(s.drop_last(), i, id);
    }
}

/// An id that is counted is carried by some entry.
pub proof fn lemma_occurrences_witness(s: Seq<EntryView>, id: Seq<char>)
    requires
        occurrences(s, id) >= 1,
    ensures
        exists|i: int| 0 <= i < s.len() && (#[trigger] s[i]).player_id == id,
    decreases s.len(),
{
    if s.len() > 0 {
        if s.last().player_id == id {
            assert(s[s.len() - 1].player_id == id);
        } else {
            lemma_occurrences_witness(s.drop_last(), id);
            let i = choose|i: int|
                0 <= i < s.drop_last().len() && (#[trigger] s.drop_last()[i]).player_id == id;
            assert(s[i].player_id == id);
        }
    }
}

proof fn lemma_occurrences_twice(s: Seq<EntryView>, i: int, j: int, id: Seq<char>)
    requires
        0 <= i < j < s.len(),
        s[i].player_id == id,
        s[j].player_id == id,
    ensures
        occurrences(s, id) >= 2,
    decreases s.len(),
{
    if j < s.len() - 1 {
        lemma_occurrences_twice(s.drop_last(), i, j, id);
    } else {
        lemma_occurrences_found(s.drop_last(), i, id);
    }
}

/// Distinct ids are counted at most once each.
pub proof fn lemma_distinct_counts(s: Seq<EntryView>, id: Seq<char>)
    requires
        ids_distinct(s),
    ensures
        occurrences(s, id) <= 1,
    decreases s.len(),
{
    if s.len() > 0 {
        let init = s.drop_last();
        assert forall|i: int, j: int| 0 <= i < j < init.len() implies (#[trigger] init[i]).player_id
            != (#[trigger] init[j]).player_id by {
            assert(s[i].player_id != s[j].player_id);
        }
        lemma_distinct_counts(init, id);
        if s.last().player_id == id && occurrences(init, id) >= 1 {
            lemma_occurrences_witness(init, id);
            let i = choose|i: int| 0 <= i < init.len() && (#[trigger] init[i]).player_id == id;
            assert(s[i].player_id != s[s.len() - 1].player_id);
        }
    }
}

/// Ids that are counted at most once each are distinct.
pub proof fn lemma_counts_distinct(s: Seq<EntryView>)
    requires
        forall|id: Seq<char>| #[trigger] occurrences(s, id) <= 1,
    ensures
        ids_distinct(s),
{
    assert forall|i: int, j: int| 0 <= i < j < s.len() implies (#[trigger] s[i]).player_id != (
    #[trigger] s[j]).player_id by {
        if s[i].player_id == s[j].player_id {
            lemma_occurrences_twice(s, i, j, s[i].player_id);
            assert(occurrences(s, s[i].player_id) <= 1);
        }
    }
}

} // verus!
