//! How far a day's schedule depends on the order in which the entries
//! are given: only among entries with equal scores.

use vstd::prelude::*;
use crate::parser::EntryView;
use super::generic::{
    availability_lists, by_score, candidates_of, generic_schedule, pool_rules, pool_schedule,
    score_keys,
};
use super::ordering::{exchanged, lemma_exchange_keeps_ranking};
use super::slot_utils::{law_popularity_ignores_order, popularity, slot_rankings};
use super::types::Day;

verus! {

/// The candidates of two lists in a row are the candidates of the one
/// and then those of the other.
pub proof fn lemma_candidates_joined(a: Seq<EntryView>, b: Seq<EntryView>, day: Day)
    ensures
        candidates_of(a + b, day) == candidates_of(a, day) + candidates_of(b, day),
    decreases b.len(),
{
    if b.len() == 0 {
        assert(a + b =~= a);
        assert(candidates_of(a, day) + candidates_of(b, day) =~= candidates_of(a, day));
    } else {
        lemma_candidates_joined(a, b.drop_last(), day);
        assert((a + b).drop_last() =~= a + b.drop_last());
        assert((a + b).last() == b.last());
        let front = candidates_of(a, day);
        let back = candidates_of(b.drop_last(), day);
        if day.is_candidate(b.last()) {
            assert((front + back).push(b.last()) =~= front + back.push(b.last()));
        }
    }
}

/// The candidates among a single entry.
proof fn lemma_candidates_single(x: EntryView, day: Day)
    ensures
        candidates_of(seq![x], day) == if day.is_candidate(x) {
            seq![x]
        } else {
            Seq::<EntryView>::empty()
        },
{
    let one = seq![x];
    assert(one.drop_last() =~= Seq::<EntryView>::empty());
    assert(one.last() == x);
    assert(candidates_of(one.drop_last(), day) =~= Seq::<EntryView>::empty());
    if day.is_candidate(x) {
        assert(Seq::<EntryView>::empty().push(x) =~= seq![x]);
    }
}

/// The pool of a day with two neighbouring entries exchanged: the same
/// pool, or the pool with the two exchanged where both take part.
proof fn lemma_candidates_exchanged(entries: Seq<EntryView>, day: Day, i: int)
    requires
        0 <= i,
        i + 1 < entries.len(),
    ensures
        candidates_of(entries.take(i), day).len() + 2 <= candidates_of(entries, day).len()
            || !(day.is_candidate(entries[i]) && day.is_candidate(entries[i + 1])),
        candidates_of(exchanged(entries, i), day) == if day.is_candidate(entries[i])
            && day.is_candidate(entries[i + 1]) {
            exchanged(candidates_of(entries, day), candidates_of(entries.take(i), day).len() as int)
        } else {
            candidates_of(entries, day)
        },
        day.is_candidate(entries[i]) && day.is_candidate(entries[i + 1]) ==> candidates_of(
            entries,
            day,
        )[candidates_of(entries.take(i), day).len() as int] == entries[i] && candidates_of(
            entries,
            day,
        )[candidates_of(entries.take(i), day).len() as int + 1] == entries[i + 1],
{
    let x = entries[i];
    let y = entries[i + 1];
    let pre = entries.take(i);
    let post = entries.skip(i + 2);
    let other = exchanged(entries, i);
    assert(entries =~= pre + seq![x] + seq![y] + post);
    assert(other =~= pre + seq![y] + seq![x] + post);
    lemma_candidates_joined(pre + seq![x] + seq![y], post, day);
    lemma_candidates_joined(pre + seq![x], seq![y], day);
    lemma_candidates_joined(pre, seq![x], day);
    lemma_candidates_joined(pre + seq![y] + seq![x], post, day);
    lemma_candidates_joined(pre + seq![y], seq![x], day);
    lemma_candidates_joined(pre, seq![y], day);
    lemma_candidates_single(x, day);
    lemma_candidates_single(y, day);
    let p = candidates_of(pre, day);
    let q = candidates_of(post, day);
    let pool = candidates_of(entries, day);
    if day.is_candidate(x) && day.is_candidate(y) {
        assert(pool == p + seq![x] + seq![y] + q);
        assert(candidates_of(other, day) == p + seq![y] + seq![x] + q);
        assert(p + seq![y] + seq![x] + q =~= exchanged(pool, p.len() as int));
    } else if day.is_candidate(x) {
        assert(p + seq![x] + Seq::<EntryView>::empty() + q =~= p + Seq::<EntryView>::empty()
            + seq![x] + q);
    } else if day.is_candidate(y) {
        assert(p + seq![y] + Seq::<EntryView>::empty() + q =~= p + Seq::<EntryView>::empty()
            + seq![y] + q);
    } else {
    }
}

/// Exchanging two neighbours of a pool whose scores differ leaves the
/// pool's schedule as it is.
pub proof fn lemma_pool_exchange(
    pool: Seq<EntryView>,
    day: Day,
    pre_locked: Set<u8>,
    locked: Set<u8>,
    j: int,
)
    requires
        0 <= j,
        j + 1 < pool.len(),
        day.score_spec(pool[j]) != day.score_spec(pool[j + 1]),
    ensures
        pool_schedule(exchanged(pool, j), day, pre_locked, locked) == pool_schedule(
            pool,
            day,
            pre_locked,
            locked,
        ),
{
    let other = exchanged(pool, j);
    let keys = score_keys(pool, day);
    let lists = availability_lists(pool, day);
    assert(score_keys(other, day) =~= exchanged(keys, j));
    assert(availability_lists(other, day) =~= lists.update(j, lists[j + 1]).update(j + 1, lists[j]));
    lemma_exchange_keeps_ranking(pool, keys, true, j);
    assert(by_score(other, day) == by_score(pool, day));
    assert forall|s: u8|
        popularity(availability_lists(other, day), s) == popularity(lists, s) by {
        law_popularity_ignores_order(lists, j, s);
    }
    assert(slot_rankings(availability_lists(other, day)) =~= slot_rankings(lists));
    assert(pool_rules(other, day, locked) == pool_rules(pool, day, locked));
}

/// The order of the entries matters only among equal scores: exchanging
/// two neighbouring entries whose scores for the day differ leaves the
/// day's schedule as it is.
pub proof fn law_order_matters_only_among_equals(
    entries: Seq<EntryView>,
    day: Day,
    pre_locked: Set<u8>,
    locked: Set<u8>,
    i: int,
)
    requires
        0 <= i,
        i + 1 < entries.len(),
        day.score_spec(entries[i]) != day.score_spec(entries[i + 1]),
    ensures
        generic_schedule(exchanged(entries, i), day, pre_locked, locked) == generic_schedule(
            entries,
            day,
            pre_locked,
            locked,
        ),
{
    lemma_candidates_exchanged(entries, day, i);
    if day.is_candidate(entries[i]) && day.is_candidate(entries[i + 1]) {
        let pool = candidates_of(entries, day);
        let j = candidates_of(entries.take(i), day).len() as int;
        lemma_pool_exchange(pool, day, pre_locked, locked, j);
    }
}

} // verus!
