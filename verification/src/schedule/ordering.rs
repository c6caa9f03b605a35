//! Stable ordering by an integer key.
//!
//! Every ranking in the scheduler (candidates by score, slots by
//! popularity, occupants by score) is a stable sort: items with equal keys
//! keep the order in which they were given.  That makes each ranking a
//! function of its input, with the position in the input as the tie-break.

use vstd::prelude::*;

verus! {

/// Whether key `a` must come strictly before key `b`.
pub open spec fn ranks_before(a: u64, b: u64, descending: bool) -> bool {
    if descending {
        a > b
    } else {
        a < b
    }
}

/// Where a new item with key `k` enters `order`, a ranking of earlier
/// items (held as indices into `keys`): behind every item that it does
/// not strictly outrank.
pub open spec fn insertion_point(keys: Seq<u64>, order: Seq<int>, k: u64, descending: bool) -> int
    decreases order.len(),
{
    if order.len() == 0 {
        0
    } else if ranks_before(k, keys[order.last()], descending) {
        insertion_point(keys, order.drop_last(), k, descending)
    } else {
        order.len() as int
    }
}

/// The stable ranking of the items `0..keys.len()` by their keys, as a
/// list of indices into `keys`.
pub open spec fn stable_order(keys: Seq<u64>, descending: bool) -> Seq<int>
    decreases keys.len(),
{
    if keys.len() == 0 {
        Seq::empty()
    } else {
        let n = keys.len() - 1;
        let prev = stable_order(keys.drop_last(), descending);
        prev.insert(insertion_point(keys, prev, keys[n], descending), n)
    }
}

/// `items` rearranged so that position `i` holds item `order[i]`.
pub open spec fn reorder<T>(items: Seq<T>, order: Seq<int>) -> Seq<T> {
    Seq::new(order.len(), |i: int| items[order[i]])
}

/// `items` in the stable ranking given by `keys`, where `keys[i]` is the
/// key of `items[i]`.
pub open spec fn sorted_by_keys<T>(items: Seq<T>, keys: Seq<u64>, descending: bool) -> Seq<T> {
    reorder(items, stable_order(keys, descending))
}

/// A list of machine indices as mathematical integers.
pub open spec fn as_ints(v: Seq<usize>) -> Seq<int> {
    Seq::new(v.len(), |i: int| v[i] as int)
}

/// Whether `order` lists each of `0..n` at most once and nothing else,
/// and has `n` entries.
pub open spec fn is_arrangement(order: Seq<int>, n: nat) -> bool {
    &&& order.len() == n
    &&& forall|i: int| 0 <= i < order.len() ==> 0 <= #[trigger] order[i] < n
    &&& forall|i: int, j: int|
        0 <= i < order.len() && 0 <= j < order.len() && i != j ==> #[trigger] order[i]
            != #[trigger] order[j]
}

/// Whether `order` respects the keys and, among equal keys, the input
/// positions.
pub open spec fn is_stably_sorted(keys: Seq<u64>, order: Seq<int>, descending: bool) -> bool {
    forall|i: int, j: int|
        0 <= i < j < order.len() ==> {
            &&& !ranks_before(keys[#[trigger] order[j]], keys[#[trigger] order[i]], descending)
            &&& (keys[order[i]] == keys[order[j]] ==> order[i] < order[j])
        }
}

proof fn lemma_insertion_point(keys: Seq<u64>, order: Seq<int>, k: u64, descending: bool)
    ensures
        0 <= insertion_point(keys, order, k, descending) <= order.len(),
        forall|i: int|
            insertion_point(keys, order, k, descending) <= i < order.len() ==> ranks_before(
                k,
                keys[#[trigger] order[i]],
                descending,
            ),
        insertion_point(keys, order, k, descending) > 0 ==> !ranks_before(
            k,
            keys[order[insertion_point(keys, order, k, descending) - 1]],
            descending,
        ),
    decreases order.len(),
{
    if order.len() > 0 && ranks_before(k, keys[order.last()], descending) {
        let shorter = order.drop_last();
        lemma_insertion_point(keys, shorter, k, descending);
        let p = insertion_point(keys, order, k, descending);
        assert forall|i: int| p <= i < order.len() implies ranks_before(
            k,
            keys[#[trigger] order[i]],
            descending,
        ) by {
            if i < shorter.len() {
                assert(order[i] == shorter[i]);
            }
        }
        if p > 0 {
            assert(order[p - 1] == shorter[p - 1]);
        }
    }
}

/// The stable ranking is the stable sort: it arranges all the indices,
/// in key order, and equal keys stay in input order.
pub proof fn lemma_stable_order(keys: Seq<u64>, descending: bool)
    ensures
        is_arrangement(stable_order(keys, descending), keys.len()),
        is_stably_sorted(keys, stable_order(keys, descending), descending),
    decreases keys.len(),
{
    if keys.len() > 0 {
        let n = keys.len() - 1;
        let shorter = keys.drop_last();
        let prev = stable_order(shorter, descending);
        lemma_stable_order(shorter, descending);
        let p = insertion_point(keys, prev, keys[n], descending);
        lemma_insertion_point(keys, prev, keys[n], descending);
        let next = prev.insert(p, n);
        assert(next == stable_order(keys, descending));
        assert forall|i: int| 0 <= i < next.len() implies 0 <= #[trigger] next[i] < keys.len() by {
            if i < p {
                assert(next[i] == prev[i]);
            } else if i > p {
                assert(next[i] == prev[i - 1]);
            }
        }
        assert forall|i: int, j: int|
            0 <= i < next.len() && 0 <= j < next.len() && i != j implies #[trigger] next[i]
            != #[trigger] next[j] by {
            let a = if i < p { i } else { i - 1 };
            let b = if j < p { j } else { j - 1 };
            if i != p {
                assert(next[i] == prev[a]);
            }
            if j != p {
                assert(next[j] == prev[b]);
            }
        }
        assert forall|i: int, j: int| 0 <= i < j < next.len() implies {
            &&& !ranks_before(keys[#[trigger] next[j]], keys[#[trigger] next[i]], descending)
            &&& (keys[next[i]] == keys[next[j]] ==> next[i] < next[j])
        } by {
            let a = if i < p { i } else { i - 1 };
            let b = if j < p { j } else { j - 1 };
            if i != p {
                assert(next[i] == prev[a]);
                assert(keys[prev[a]] == shorter[prev[a]]);
            }
            if j != p {
                assert(next[j] == prev[b]);
                assert(keys[prev[b]] == shorter[prev[b]]);
            }
            if j == p {
                if i < p - 1 {
                    assert(!ranks_before(shorter[prev[p - 1]], shorter[prev[i]], descending));
                }
                assert(keys[prev[p - 1]] == shorter[prev[p - 1]]);
            }
        }
    }
}

/// Reordering by an arrangement keeps every item: each position of the
/// result holds an item of the input, and distinct positions hold
/// distinct input positions.
pub proof fn lemma_sorted_by_keys<T>(items: Seq<T>, keys: Seq<u64>, descending: bool)
    requires
        items.len() == keys.len(),
    ensures
        sorted_by_keys(items, keys, descending).len() == items.len(),
        is_arrangement(stable_order(keys, descending), items.len()),
        forall|i: int|
            0 <= i < items.len() ==> #[trigger] sorted_by_keys(items, keys, descending)[i]
                == items[stable_order(keys, descending)[i]],
{
    lemma_stable_order(keys, descending);
}

/// Sorting one more item amounts to inserting it into the sorted list of
/// the others.
pub proof fn lemma_sorted_step<T>(items: Seq<T>, keys: Seq<u64>, descending: bool)
    requires
        items.len() == keys.len(),
        items.len() > 0,
    ensures
        0 <= insertion_point(
            keys,
            stable_order(keys.drop_last(), descending),
            keys.last(),
            descending,
        ) <= items.len() - 1,
        sorted_by_keys(items.drop_last(), keys.drop_last(), descending).len() == items.len() - 1,
        sorted_by_keys(items, keys, descending) == sorted_by_keys(
            items.drop_last(),
            keys.drop_last(),
            descending,
        ).insert(
            insertion_point(
                keys,
                stable_order(keys.drop_last(), descending),
                keys.last(),
                descending,
            ),
            items.last(),
        ),
{
    let prev = stable_order(keys.drop_last(), descending);
    let p = insertion_point(keys, prev, keys.last(), descending);
    lemma_stable_order(keys.drop_last(), descending);
    lemma_insertion_point(keys, prev, keys.last(), descending);
    let shorter = sorted_by_keys(items.drop_last(), keys.drop_last(), descending);
    let longer = sorted_by_keys(items, keys, descending);
    let next = prev.insert(p, items.len() - 1);
    assert(next == stable_order(keys, descending));
    assert forall|i: int| 0 <= i < longer.len() implies longer[i] == shorter.insert(
        p,
        items.last(),
    )[i] by {
        if i < p {
            assert(next[i] == prev[i]);
        } else if i > p {
            assert(next[i] == prev[i - 1]);
        }
    }
    assert(longer =~= shorter.insert(p, items.last()));
}

/// Computes the stable ranking of `keys`.
pub fn stable_order_of(keys: &Vec<u64>, descending: bool) -> (order: Vec<usize>)
    ensures
        as_ints(order@) == stable_order(keys@, descending),
        order@.len() == keys@.len(),
        forall|i: int| 0 <= i < order@.len() ==> #[trigger] order@[i] < keys@.len(),
{
    let mut order: Vec<usize> = Vec::new();
    let mut n: usize = 0;
    assert(keys@.take(0) =~= Seq::<u64>::empty());
    while n < keys.len()
        invariant
            n <= keys.len(),
            order@.len() == n,
            as_ints(order@) =~= stable_order(keys@.take(n as int), descending),
            forall|i: int| 0 <= i < order@.len() ==> #[trigger] order@[i] < n,
        decreases keys.len() - n,
    {
        let k = keys[n];
        let ghost upto = keys@.take(n + 1);
        let ghost prev = as_ints(order@);
        let mut j: usize = order.len();
        assert(prev.take(j as int) =~= prev);
        while j > 0 && outranks(k, keys[order[j - 1]], descending)
            invariant
                j <= order.len(),
                order@.len() == n,
                n < keys.len(),
                prev == as_ints(order@),
                upto == keys@.take(n + 1),
                k == keys@[n as int],
                forall|i: int| 0 <= i < order@.len() ==> #[trigger] order@[i] < n,
                insertion_point(upto, prev, k, descending) == insertion_point(
                    upto,
                    prev.take(j as int),
                    k,
                    descending,
                ),
            decreases j,
        {
            assert(prev.take(j as int).drop_last() =~= prev.take(j - 1));
            assert(prev.take(j as int).last() == order@[j - 1] as int);
            j -= 1;
        }
        proof {
            assert(prev.take(prev.len() as int) =~= prev);
            if j > 0 {
                assert(prev.take(j as int).last() == order@[j - 1] as int);
            }
            assert(insertion_point(upto, prev, k, descending) == j);
            assert(upto.drop_last() =~= keys@.take(n as int));
            assert(upto[upto.len() - 1] == k);
        }
        order.insert(j, n);
        proof {
            assert(as_ints(order@) =~= prev.insert(j as int, n as int));
        }
        n += 1;
    }
    assert(keys@.take(keys@.len() as int) =~= keys@);
    order
}

/// Whether key `a` must come strictly before key `b`.
pub fn outranks(a: u64, b: u64, descending: bool) -> (r: bool)
    ensures
        r == ranks_before(a, b, descending),
{
    if descending {
        a > b
    } else {
        a < b
    }
}

/// Where a new key `k` enters a list of keys that is already in order:
/// behind every key that it does not strictly outrank.
pub open spec fn entry_point(sorted_keys: Seq<u64>, k: u64, descending: bool) -> int
    decreases sorted_keys.len(),
{
    if sorted_keys.len() == 0 {
        0
    } else if ranks_before(k, sorted_keys.last(), descending) {
        entry_point(sorted_keys.drop_last(), k, descending)
    } else {
        sorted_keys.len() as int
    }
}

/// Whether no key of the list outranks a key before it.
pub open spec fn keys_in_order(keys: Seq<u64>, descending: bool) -> bool {
    forall|i: int, j: int|
        0 <= i < j < keys.len() ==> !ranks_before(#[trigger] keys[j], #[trigger] keys[i], descending)
}

/// The keys of a list in their stable ranking.
pub open spec fn sorted_keys(keys: Seq<u64>, descending: bool) -> Seq<u64> {
    sorted_by_keys(keys, keys, descending)
}

/// The two items at `i` and `i + 1` exchanged.
pub open spec fn exchanged<T>(items: Seq<T>, i: int) -> Seq<T> {
    items.update(i, items[i + 1]).update(i + 1, items[i])
}

proof fn lemma_entry_point(keys: Seq<u64>, k: u64, descending: bool)
    requires
        keys_in_order(keys, descending),
    ensures
        0 <= entry_point(keys, k, descending) <= keys.len(),
        forall|i: int|
            entry_point(keys, k, descending) <= i < keys.len() ==> ranks_before(
                k,
                #[trigger] keys[i],
                descending,
            ),
        forall|i: int|
            0 <= i < entry_point(keys, k, descending) ==> !ranks_before(
                k,
                #[trigger] keys[i],
                descending,
            ),
    decreases keys.len(),
{
    if keys.len() > 0 && ranks_before(k, keys.last(), descending) {
        let init = keys.drop_last();
        assert forall|i: int, j: int| 0 <= i < j < init.len() implies !ranks_before(
            #[trigger] init[j],
            #[trigger] init[i],
            descending,
        ) by {
            assert(!ranks_before(keys[j], keys[i], descending));
        }
        lemma_entry_point(init, k, descending);
        let p = entry_point(keys, k, descending);
        assert forall|i: int| p <= i < keys.len() implies ranks_before(
            k,
            #[trigger] keys[i],
            descending,
        ) by {
            if i < init.len() {
                assert(keys[i] == init[i]);
            }
        }
        assert forall|i: int| 0 <= i < p implies !ranks_before(k, #[trigger] keys[i], descending) by {
            assert(keys[i] == init[i]);
        }
    } else if keys.len() > 0 {
        assert forall|i: int| 0 <= i < keys.len() implies !ranks_before(
            k,
            #[trigger] keys[i],
            descending,
        ) by {
            if i < keys.len() - 1 {
                assert(!ranks_before(keys[keys.len() - 1], keys[i], descending));
            }
        }
    }
}

/// The place that divides the keys a new key does not outrank from those
/// it outranks is where the new key enters.
proof fn lemma_entry_point_is(keys: Seq<u64>, k: u64, descending: bool, q: int)
    requires
        keys_in_order(keys, descending),
        0 <= q <= keys.len(),
        forall|i: int| q <= i < keys.len() ==> ranks_before(k, #[trigger] keys[i], descending),
        forall|i: int| 0 <= i < q ==> !ranks_before(k, #[trigger] keys[i], descending),
    ensures
        entry_point(keys, k, descending) == q,
{
    lemma_entry_point(keys, k, descending);
    let p = entry_point(keys, k, descending);
    if p < q {
        assert(ranks_before(k, keys[p], descending));
    } else if p > q {
        assert(!ranks_before(k, keys[q], descending));
    }
}

proof fn lemma_insertion_is_entry(keys: Seq<u64>, order: Seq<int>, k: u64, descending: bool)
    ensures
        insertion_point(keys, order, k, descending) == entry_point(
            reorder(keys, order),
            k,
            descending,
        ),
    decreases order.len(),
{
    let listed = reorder(keys, order);
    if order.len() > 0 {
        assert(listed.last() == keys[order.last()]);
        assert(listed.drop_last() =~= reorder(keys, order.drop_last()));
        if ranks_before(k, keys[order.last()], descending) {
            lemma_insertion_is_entry(keys, order.drop_last(), k, descending);
        }
    }
}

/// The keys in their stable ranking are in order.
pub proof fn lemma_sorted_keys_in_order(keys: Seq<u64>, descending: bool)
    ensures
        keys_in_order(sorted_keys(keys, descending), descending),
        sorted_keys(keys, descending).len() == keys.len(),
{
    lemma_stable_order(keys, descending);
    let order = stable_order(keys, descending);
    let listed = sorted_keys(keys, descending);
    assert forall|i: int, j: int| 0 <= i < j < listed.len() implies !ranks_before(
        #[trigger] listed[j],
        #[trigger] listed[i],
        descending,
    ) by {
        assert(!ranks_before(keys[order[j]], keys[order[i]], descending));
    }
}

/// Ranking one more item: it enters the ranking of the others where its
/// key enters their keys.
pub proof fn lemma_sorted_enters<T>(items: Seq<T>, keys: Seq<u64>, descending: bool)
    requires
        items.len() == keys.len(),
        items.len() > 0,
    ensures
        sorted_by_keys(items, keys, descending) == sorted_by_keys(
            items.drop_last(),
            keys.drop_last(),
            descending,
        ).insert(
            entry_point(sorted_keys(keys.drop_last(), descending), keys.last(), descending),
            items.last(),
        ),
        sorted_keys(keys, descending) == sorted_keys(keys.drop_last(), descending).insert(
            entry_point(sorted_keys(keys.drop_last(), descending), keys.last(), descending),
            keys.last(),
        ),
        0 <= entry_point(sorted_keys(keys.drop_last(), descending), keys.last(), descending)
            <= items.len() - 1,
{
    let init = keys.drop_last();
    let prev = stable_order(init, descending);
    lemma_sorted_step(items, keys, descending);
    lemma_sorted_step(keys, keys, descending);
    lemma_stable_order(init, descending);
    lemma_insertion_is_entry(keys, prev, keys.last(), descending);
    assert(reorder(keys, prev) =~= reorder(init, prev)) by {
        assert forall|i: int| 0 <= i < prev.len() implies keys[prev[i]] == init[prev[i]] by {}
    }
}

proof fn lemma_enter_keeps_order(keys: Seq<u64>, k: u64, descending: bool)
    requires
        keys_in_order(keys, descending),
    ensures
        keys_in_order(keys.insert(entry_point(keys, k, descending), k), descending),
{
    lemma_entry_point(keys, k, descending);
    let p = entry_point(keys, k, descending);
    let more = keys.insert(p, k);
    assert forall|i: int, j: int| 0 <= i < j < more.len() implies !ranks_before(
        #[trigger] more[j],
        #[trigger] more[i],
        descending,
    ) by {
        let a = if i < p { i } else { i - 1 };
        let b = if j < p { j } else { j - 1 };
        if i != p {
            assert(more[i] == keys[a]);
        }
        if j != p {
            assert(more[j] == keys[b]);
        }
        if i != p && j != p {
            assert(!ranks_before(keys[b], keys[a], descending));
        }
    }
}

/// Two items with different keys enter a ranking in either order with
/// the same outcome.
proof fn lemma_entries_commute<T>(
    s: Seq<T>,
    sk: Seq<u64>,
    x: T,
    kx: u64,
    y: T,
    ky: u64,
    descending: bool,
)
    requires
        s.len() == sk.len(),
        keys_in_order(sk, descending),
        kx != ky,
    ensures
        s.insert(entry_point(sk, kx, descending), x).insert(
            entry_point(sk.insert(entry_point(sk, kx, descending), kx), ky, descending),
            y,
        ) == s.insert(entry_point(sk, ky, descending), y).insert(
            entry_point(sk.insert(entry_point(sk, ky, descending), ky), kx, descending),
            x,
        ),
        sk.insert(entry_point(sk, kx, descending), kx).insert(
            entry_point(sk.insert(entry_point(sk, kx, descending), kx), ky, descending),
            ky,
        ) == sk.insert(entry_point(sk, ky, descending), ky).insert(
            entry_point(sk.insert(entry_point(sk, ky, descending), ky), kx, descending),
            kx,
        ),
{
    let px = entry_point(sk, kx, descending);
    let py = entry_point(sk, ky, descending);
    lemma_entry_point(sk, kx, descending);
    lemma_entry_point(sk, ky, descending);
    let sk_x = sk.insert(px, kx);
    let sk_y = sk.insert(py, ky);
    lemma_enter_keeps_order(sk, kx, descending);
    lemma_enter_keeps_order(sk, ky, descending);
    if ranks_before(kx, ky, descending) {
        assert(px <= py) by {
            if py < px {
                assert(!ranks_before(kx, sk[py], descending));
                assert(ranks_before(ky, sk[py], descending));
            }
        }
        lemma_place_behind(sk, kx, ky, descending, px, py);
        lemma_place_before(sk, ky, kx, descending, py, px);
        assert(s.insert(px, x).insert(py + 1, y) =~= s.insert(py, y).insert(px, x));
        assert(sk.insert(px, kx).insert(py + 1, ky) =~= sk.insert(py, ky).insert(px, kx));
    } else {
        assert(ranks_before(ky, kx, descending));
        assert(py <= px) by {
            if px < py {
                assert(!ranks_before(ky, sk[px], descending));
                assert(ranks_before(kx, sk[px], descending));
            }
        }
        lemma_place_before(sk, kx, ky, descending, px, py);
        lemma_place_behind(sk, ky, kx, descending, py, px);
        assert(s.insert(px, x).insert(py, y) =~= s.insert(py, y).insert(px + 1, x));
        assert(sk.insert(px, kx).insert(py, ky) =~= sk.insert(py, ky).insert(px + 1, kx));
    }
}

/// Once a key `first` that outranks `second` has entered at `pf`, the
/// key `second` enters one place further back than it would have.
proof fn lemma_place_behind(sk: Seq<u64>, first: u64, second: u64, descending: bool, pf: int, ps: int)
    requires
        keys_in_order(sk, descending),
        ranks_before(first, second, descending),
        pf == entry_point(sk, first, descending),
        ps == entry_point(sk, second, descending),
        pf <= ps,
    ensures
        entry_point(sk.insert(pf, first), second, descending) == ps + 1,
{
    lemma_entry_point(sk, first, descending);
    lemma_entry_point(sk, second, descending);
    lemma_enter_keeps_order(sk, first, descending);
    let more = sk.insert(pf, first);
    assert forall|i: int| ps + 1 <= i < more.len() implies ranks_before(
        second,
        #[trigger] more[i],
        descending,
    ) by {
        assert(more[i] == sk[i - 1]);
    }
    assert forall|i: int| 0 <= i < ps + 1 implies !ranks_before(
        second,
        #[trigger] more[i],
        descending,
    ) by {
        if i < pf {
            assert(more[i] == sk[i]);
        } else if i > pf {
            assert(more[i] == sk[i - 1]);
        }
    }
    lemma_entry_point_is(more, second, descending, ps + 1);
}

/// Once a key `later` that `earlier` outranks has entered at `pl`, the
/// key `earlier` enters where it would have.
proof fn lemma_place_before(sk: Seq<u64>, later: u64, earlier: u64, descending: bool, pl: int, pe: int)
    requires
        keys_in_order(sk, descending),
        ranks_before(earlier, later, descending),
        pl == entry_point(sk, later, descending),
        pe == entry_point(sk, earlier, descending),
        pe <= pl,
    ensures
        entry_point(sk.insert(pl, later), earlier, descending) == pe,
{
    lemma_entry_point(sk, later, descending);
    lemma_entry_point(sk, earlier, descending);
    lemma_enter_keeps_order(sk, later, descending);
    let more = sk.insert(pl, later);
    assert forall|i: int| pe <= i < more.len() implies ranks_before(
        earlier,
        #[trigger] more[i],
        descending,
    ) by {
        if i < pl {
            assert(more[i] == sk[i]);
        } else if i > pl {
            assert(more[i] == sk[i - 1]);
        }
    }
    assert forall|i: int| 0 <= i < pe implies !ranks_before(
        earlier,
        #[trigger] more[i],
        descending,
    ) by {
        assert(more[i] == sk[i]);
    }
    lemma_entry_point_is(more, earlier, descending, pe);
}

/// Exchanging two neighbours with different keys does not change the
/// stable ranking.
pub proof fn lemma_exchange_keeps_ranking<T>(items: Seq<T>, keys: Seq<u64>, descending: bool, i: int)
    requires
        items.len() == keys.len(),
        0 <= i,
        i + 1 < items.len(),
        keys[i] != keys[i + 1],
    ensures
        sorted_by_keys(exchanged(items, i), exchanged(keys, i), descending) == sorted_by_keys(
            items,
            keys,
            descending,
        ),
        sorted_keys(exchanged(keys, i), descending) == sorted_keys(keys, descending),
    decreases items.len(),
{
    let items2 = exchanged(items, i);
    let keys2 = exchanged(keys, i);
    if i + 2 == items.len() {
        lemma_exchange_of_the_last_two(items, keys, descending);
    } else {
        lemma_exchange_keeps_ranking(items.drop_last(), keys.drop_last(), descending, i);
        assert(items2.drop_last() =~= exchanged(items.drop_last(), i));
        assert(keys2.drop_last() =~= exchanged(keys.drop_last(), i));
        assert(items2.last() == items.last() && keys2.last() == keys.last());
        lemma_sorted_enters(items, keys, descending);
        lemma_sorted_enters(items2, keys2, descending);
    }
}

proof fn lemma_exchange_of_the_last_two<T>(items: Seq<T>, keys: Seq<u64>, descending: bool)
    requires
        items.len() == keys.len(),
        items.len() >= 2,
        keys[keys.len() - 2] != keys[keys.len() - 1],
    ensures
        sorted_by_keys(
            exchanged(items, items.len() - 2),
            exchanged(keys, keys.len() - 2),
            descending,
        ) == sorted_by_keys(items, keys, descending),
        sorted_keys(exchanged(keys, keys.len() - 2), descending) == sorted_keys(keys, descending),
{
    let i = items.len() - 2;
    let items2 = exchanged(items, i);
    let keys2 = exchanged(keys, i);
    let base_items = items.drop_last().drop_last();
    let base_keys = keys.drop_last().drop_last();
    let x = items[i];
    let y = items[i + 1];
    let kx = keys[i];
    let ky = keys[i + 1];
    let s = sorted_by_keys(base_items, base_keys, descending);
    let sk = sorted_keys(base_keys, descending);
    lemma_sorted_keys_in_order(base_keys, descending);
    lemma_sorted_by_keys(base_items, base_keys, descending);
    assert(items.drop_last().last() == x && keys.drop_last().last() == kx);
    lemma_sorted_enters(items.drop_last(), keys.drop_last(), descending);
    lemma_sorted_enters(items, keys, descending);
    assert(items2.drop_last().drop_last() =~= base_items);
    assert(keys2.drop_last().drop_last() =~= base_keys);
    assert(items2.drop_last().last() == y && keys2.drop_last().last() == ky);
    assert(items2.last() == x && keys2.last() == kx);
    lemma_sorted_enters(items2.drop_last(), keys2.drop_last(), descending);
    lemma_sorted_enters(items2, keys2, descending);
    lemma_entries_commute(s, sk, x, kx, y, ky, descending);
}

} // verus!
