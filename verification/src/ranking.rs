//! Picking positions by key: the first that qualifies, the last of the greatest,
//! and the whole row from the greatest key down.
//!
//! A row of optional keys stands for the candidates: a position without a key
//! does not qualify.

use vstd::prelude::*;

verus! {

// ---------------------------------------------------------------------------
// The first position that qualifies
// ---------------------------------------------------------------------------

/// Whether `i` is the first position whose flag is set.
pub open spec fn is_first(flags: Seq<bool>, i: int) -> bool {
    &&& 0 <= i < flags.len()
    &&& flags[i]
    &&& forall|j: int| 0 <= j < i ==> !#[trigger] flags[j]
}

/// The first position whose flag is set.
pub open spec fn first_set(flags: Seq<bool>) -> Option<int> {
    if exists|i: int| is_first(flags, i) {
        Some(choose|i: int| is_first(flags, i))
    } else {
        None
    }
}

/// There is only one first position.
pub proof fn lemma_first_set(flags: Seq<bool>, i: int)
    requires
        is_first(flags, i),
    ensures
        first_set(flags) == Some(i),
{
    let found = choose|k: int| is_first(flags, k);
    assert(is_first(flags, found));
    assert(found == i);
}

/// Without a flag set there is no first position.
pub proof fn lemma_first_unset(flags: Seq<bool>)
    requires
        forall|j: int| 0 <= j < flags.len() ==> !#[trigger] flags[j],
    ensures
        first_set(flags) is None,
{
}

/// Wherever a flag is set there is a first position.
pub proof fn lemma_first_exists(flags: Seq<bool>)
    ensures
        match first_set(flags) {
            Some(i) => is_first(flags, i),
            None => forall|j: int| 0 <= j < flags.len() ==> !#[trigger] flags[j],
        },
    decreases flags.len(),
{
    if flags.len() > 0 {
        let front = flags.drop_last();
        lemma_first_exists(front);
        match first_set(front) {
            Some(i) => {
                assert(front[i] == flags[i]);
                assert forall|j: int| 0 <= j < i implies !#[trigger] flags[j] by {
                    assert(front[j] == flags[j]);
                }
                lemma_first_set(flags, i);
            },
            None => {
                assert forall|j: int| 0 <= j < front.len() implies !#[trigger] flags[j] by {
                    assert(front[j] == flags[j]);
                }
                if flags.last() {
                    lemma_first_set(flags, flags.len() - 1);
                }
            },
        }
    }
}

// ---------------------------------------------------------------------------
// The last of the greatest
// ---------------------------------------------------------------------------

/// The position of the greatest key, and of several equal ones the last.
pub open spec fn last_greatest(keys: Seq<Option<int>>) -> Option<int>
    decreases keys.len(),
{
    if keys.len() == 0 {
        None
    } else {
        match (last_greatest(keys.drop_last()), keys.last()) {
            (found, None) => found,
            (None, Some(_)) => Some(keys.len() - 1),
            (Some(i), Some(key)) => if keys[i]->0 <= key {
                Some(keys.len() - 1)
            } else {
                Some(i)
            },
        }
    }
}

/// What `last_greatest` picks: a qualifying position whose key no other exceeds
/// and no later one reaches; nothing exactly where nothing qualifies.
pub proof fn lemma_last_greatest(keys: Seq<Option<int>>)
    ensures
        match last_greatest(keys) {
            Some(i) => {
                &&& 0 <= i < keys.len()
                &&& keys[i] is Some
                &&& forall|j: int|
                    0 <= j < keys.len() && (#[trigger] keys[j]) is Some ==> keys[j]->0 < keys[i]->0
                        || (keys[j]->0 == keys[i]->0 && j <= i)
            },
            None => forall|j: int| 0 <= j < keys.len() ==> (#[trigger] keys[j]) is None,
        },
    decreases keys.len(),
{
    if keys.len() > 0 {
        let front = keys.drop_last();
        lemma_last_greatest(front);
        assert(forall|j: int| 0 <= j < front.len() ==> front[j] == #[trigger] keys[j]);
    }
}

/// The position of the greatest key, and of several equal ones the last.
pub fn find_last_greatest(keys: &Vec<Option<i64>>) -> (found: Option<usize>)
    ensures
        match found {
            Some(i) => i < keys@.len() && last_greatest(widened(keys@)) == Some(i as int),
            None => last_greatest(widened(keys@)) is None,
        },
{
    let mut found: Option<usize> = None;
    let mut at: usize = 0;
    let ghost wide = widened(keys@);
    assert(wide.take(0) =~= Seq::<Option<int>>::empty());
    while at < keys.len()
        invariant
            at <= keys@.len(),
            wide == widened(keys@),
            match found {
                Some(i) => i < at && keys@[i as int] is Some && last_greatest(
                    wide.take(at as int),
                ) == Some(i as int),
                None => last_greatest(wide.take(at as int)) is None,
            },
        decreases keys@.len() - at,
    {
        let ghost next = wide.take(at + 1);
        assert(next.drop_last() =~= wide.take(at as int));
        assert(next.last() == wide[at as int]);
        if let Some(key) = keys[at] {
            match found {
                None => {
                    found = Some(at);
                },
                Some(i) => {
                    assert(next[i as int] == wide[i as int]);
                    if let Some(best) = keys[i] {
                        if best <= key {
                            found = Some(at);
                        }
                    }
                },
            }
        }
        at += 1;
    }
    assert(wide.take(wide.len() as int) =~= wide);
    found
}

/// Machine keys as integers.
pub open spec fn widened(keys: Seq<Option<i64>>) -> Seq<Option<int>> {
    keys.map_values(
        |key: Option<i64>|
            match key {
                Some(k) => Some(k as int),
                None => None::<int>,
            },
    )
}

/// Machine positions as integers.
pub open spec fn positions(order: Seq<usize>) -> Seq<int> {
    order.map_values(|i: usize| i as int)
}

// ---------------------------------------------------------------------------
// The whole row
// ---------------------------------------------------------------------------

/// Whether position `i` goes before position `j`: its key is greater, or the
/// keys are equal and it stands further to the left.
pub open spec fn goes_before(keys: Seq<Option<int>>, i: int, j: int) -> bool {
    keys[i]->0 > keys[j]->0 || (keys[i]->0 == keys[j]->0 && i < j)
}

/// Whether `order` is the row of the qualifying positions, the greatest key first
/// and equal keys from left to right.
pub open spec fn is_ranking(order: Seq<int>, keys: Seq<Option<int>>) -> bool {
    &&& forall|p: int|
        0 <= p < order.len() ==> 0 <= #[trigger] order[p] < keys.len() && keys[order[p]] is Some
    &&& forall|i: int| 0 <= i < keys.len() && (#[trigger] keys[i]) is Some ==> order.contains(i)
    &&& forall|p: int, q: int|
        0 <= p < q < order.len() ==> goes_before(keys, #[trigger] order[p], #[trigger] order[q])
}

/// The row of the qualifying positions, the greatest key first and equal keys
/// from left to right.
pub open spec fn ranking(keys: Seq<Option<int>>) -> Seq<int> {
    choose|order: Seq<int>| is_ranking(order, keys)
}

/// There is at most one such row.
pub proof fn lemma_ranking_unique(a: Seq<int>, b: Seq<int>, keys: Seq<Option<int>>)
    requires
        is_ranking(a, keys),
        is_ranking(b, keys),
    ensures
        a == b,
{
    lemma_ranking_prefix(a, b, keys, a.len() as int);
    lemma_ranking_prefix(b, a, keys, b.len() as int);
    assert(a =~= b);
}

/// Two such rows agree as far as the first one goes.
proof fn lemma_ranking_prefix(a: Seq<int>, b: Seq<int>, keys: Seq<Option<int>>, n: int)
    requires
        is_ranking(a, keys),
        is_ranking(b, keys),
        0 <= n <= a.len(),
    ensures
        n <= b.len(),
        forall|p: int| 0 <= p < n ==> a[p] == b[p],
    decreases n,
{
    if n > 0 {
        let p = n - 1;
        lemma_ranking_prefix(a, b, keys, p);
        assert(keys[a[p]] is Some);
        assert(b.contains(a[p]));
        let q = choose|q: int| 0 <= q < b.len() && b[q] == a[p];
        if q < p {
            assert(a[q] == b[q]);
            assert(goes_before(keys, a[q], a[p]));
        }
        if q > p {
            assert(keys[b[p]] is Some);
            assert(a.contains(b[p]));
            let r = choose|r: int| 0 <= r < a.len() && a[r] == b[p];
            assert(goes_before(keys, b[p], b[q]));
            if r < p {
                assert(a[r] == b[r]);
                assert(goes_before(keys, b[r], b[p]));
            } else if r > p {
                assert(goes_before(keys, a[p], a[r]));
            }
        }
    }
}

/// A row that is a ranking is the ranking.
pub proof fn lemma_is_ranking(order: Seq<int>, keys: Seq<Option<int>>)
    requires
        is_ranking(order, keys),
    ensures
        ranking(keys) == order,
{
    lemma_ranking_unique(ranking(keys), order, keys);
}

/// Where a new last position goes in a ranking: after every key that is not
/// smaller.
proof fn lemma_insert(order: Seq<int>, keys: Seq<Option<int>>, slot: int)
    requires
        keys.len() > 0,
        is_ranking(order, keys.drop_last()),
        keys.last() is Some,
        0 <= slot <= order.len(),
        forall|p: int| 0 <= p < slot ==> keys[#[trigger] order[p]]->0 >= keys.last()->0,
        forall|p: int|
            slot <= p < order.len() ==> keys[#[trigger] order[p]]->0 < keys.last()->0,
    ensures
        is_ranking(order.insert(slot, keys.len() - 1), keys),
{
    let front = keys.drop_last();
    let new = keys.len() - 1;
    let wide = order.insert(slot, new);
    assert(forall|i: int| 0 <= i < front.len() ==> #[trigger] front[i] == keys[i]);
    assert forall|p: int| 0 <= p < wide.len() implies 0 <= #[trigger] wide[p] < keys.len()
        && keys[wide[p]] is Some by {
        if p < slot {
            assert(wide[p] == order[p]);
        } else if p > slot {
            assert(wide[p] == order[p - 1]);
        }
    }
    assert forall|i: int| 0 <= i < keys.len() && (#[trigger] keys[i]) is Some implies wide.contains(
        i,
    ) by {
        if i == new {
            assert(wide[slot] == i);
        } else {
            assert(front[i] == keys[i]);
            assert(order.contains(i));
            let p = choose|p: int| 0 <= p < order.len() && order[p] == i;
            if p < slot {
                assert(wide[p] == i);
            } else {
                assert(wide[p + 1] == i);
            }
        }
    }
    assert forall|p: int, q: int| 0 <= p < q < wide.len() implies goes_before(
        keys,
        #[trigger] wide[p],
        #[trigger] wide[q],
    ) by {
        let p0 = if p < slot {
            p
        } else {
            p - 1
        };
        let q0 = if q < slot {
            q
        } else {
            q - 1
        };
        if p != slot && q != slot {
            assert(goes_before(front, order[p0], order[q0]));
        } else if p == slot {
            assert(wide[q] == order[q0]);
            assert(keys[order[q0]]->0 < keys.last()->0);
        } else {
            assert(wide[p] == order[p0]);
            assert(keys[order[p0]]->0 >= keys.last()->0);
        }
    }
}

/// A new last position that does not qualify leaves a ranking as it is.
proof fn lemma_pass_over(order: Seq<int>, keys: Seq<Option<int>>)
    requires
        keys.len() > 0,
        is_ranking(order, keys.drop_last()),
        keys.last() is None,
    ensures
        is_ranking(order, keys),
{
    let front = keys.drop_last();
    assert(forall|i: int| 0 <= i < front.len() ==> #[trigger] front[i] == keys[i]);
    assert forall|i: int|
        0 <= i < keys.len() && (#[trigger] keys[i]) is Some implies order.contains(i) by {
        assert(front[i] == keys[i]);
    }
    assert forall|p: int, q: int| 0 <= p < q < order.len() implies goes_before(
        keys,
        #[trigger] order[p],
        #[trigger] order[q],
    ) by {
        assert(goes_before(front, order[p], order[q]));
    }
}

/// Every row of keys has a ranking.
pub proof fn lemma_ranking(keys: Seq<Option<int>>)
    ensures
        is_ranking(ranking(keys), keys),
    decreases keys.len(),
{
    if keys.len() == 0 {
        assert(is_ranking(Seq::<int>::empty(), keys));
    } else {
        let front = keys.drop_last();
        lemma_ranking(front);
        let order = ranking(front);
        if keys.last() is None {
            lemma_pass_over(order, keys);
        } else {
            let slot = lemma_slot(order, front, keys.last()->0);
            assert(forall|i: int| 0 <= i < front.len() ==> #[trigger] front[i] == keys[i]);
            lemma_insert(order, keys, slot);
        }
    }
}

/// The place in a ranking after every key that is not smaller than `key`.
proof fn lemma_slot(order: Seq<int>, keys: Seq<Option<int>>, key: int) -> (slot: int)
    requires
        is_ranking(order, keys),
    ensures
        0 <= slot <= order.len(),
        forall|p: int| 0 <= p < slot ==> keys[#[trigger] order[p]]->0 >= key,
        forall|p: int| slot <= p < order.len() ==> keys[#[trigger] order[p]]->0 < key,
{
    lemma_slot_within(order, keys, key, order.len() as int)
}

proof fn lemma_slot_within(order: Seq<int>, keys: Seq<Option<int>>, key: int, n: int) -> (slot: int)
    requires
        is_ranking(order, keys),
        0 <= n <= order.len(),
    ensures
        0 <= slot <= n,
        forall|p: int| 0 <= p < slot ==> keys[#[trigger] order[p]]->0 >= key,
        forall|p: int| slot <= p < n ==> keys[#[trigger] order[p]]->0 < key,
    decreases n,
{
    if n == 0 {
        0
    } else if keys[order[n - 1]]->0 >= key {
        assert forall|p: int| 0 <= p < n implies keys[#[trigger] order[p]]->0 >= key by {
            if p < n - 1 {
                assert(goes_before(keys, order[p], order[n - 1]));
            }
        }
        n
    } else {
        lemma_slot_within(order, keys, key, n - 1)
    }
}

/// The row of the qualifying positions, the greatest key first and equal keys
/// from left to right.
pub fn rank(keys: &Vec<Option<i64>>) -> (order: Vec<usize>)
    ensures
        positions(order@) == ranking(widened(keys@)),
        is_ranking(positions(order@), widened(keys@)),
{
    let mut order: Vec<usize> = Vec::new();
    let mut at: usize = 0;
    let ghost wide = widened(keys@);
    assert(is_ranking(positions(order@), wide.take(0)));
    while at < keys.len()
        invariant
            at <= keys@.len(),
            wide == widened(keys@),
            is_ranking(positions(order@), wide.take(at as int)),
        decreases keys@.len() - at,
    {
        let ghost next = wide.take(at + 1);
        let ghost row = positions(order@);
        assert(next.drop_last() =~= wide.take(at as int));
        assert(next.last() == wide[at as int]);
        if let Some(key) = keys[at] {
            let slot = find_slot(keys, &order, key, Ghost(wide.take(at as int)));
            proof {
                assert(forall|i: int|
                    0 <= i < at ==> #[trigger] next[i] == wide.take(at as int)[i]);
                lemma_insert(row, next, slot as int);
            }
            order.insert(slot, at);
            assert(positions(order@) =~= row.insert(slot as int, at as int));
        } else {
            proof {
                lemma_pass_over(row, next);
            }
        }
        at += 1;
    }
    proof {
        assert(wide.take(wide.len() as int) =~= wide);
        lemma_is_ranking(positions(order@), wide);
    }
    order
}

/// The place in `order` after every key that is not smaller than `key`.
fn find_slot(
    keys: &Vec<Option<i64>>,
    order: &Vec<usize>,
    key: i64,
    Ghost(wide): Ghost<Seq<Option<int>>>,
) -> (slot: usize)
    requires
        is_ranking(positions(order@), wide),
        wide.len() <= keys@.len(),
        forall|i: int| 0 <= i < wide.len() ==> #[trigger] wide[i] == widened(keys@)[i],
    ensures
        slot <= order@.len(),
        forall|p: int| 0 <= p < slot ==> wide[#[trigger] positions(order@)[p]]->0 >= key,
        forall|p: int|
            slot <= p < order@.len() ==> wide[#[trigger] positions(order@)[p]]->0 < key,
{
    let ghost row = positions(order@);
    let mut slot: usize = order.len();
    while slot > 0
        invariant
            row == positions(order@),
            is_ranking(row, wide),
            wide.len() <= keys@.len(),
            forall|i: int| 0 <= i < wide.len() ==> #[trigger] wide[i] == widened(keys@)[i],
            slot <= order@.len(),
            forall|p: int| slot <= p < order@.len() ==> wide[#[trigger] row[p]]->0 < key,
        decreases slot,
    {
        assert(row[slot - 1] == order@[slot - 1] as int);
        if let Some(other) = keys[order[slot - 1]] {
            assert(wide[row[slot - 1]] == Some(other as int));
            if other >= key {
                assert forall|p: int| 0 <= p < slot implies wide[#[trigger] row[p]]->0 >= key by {
                    if p < slot - 1 {
                        assert(goes_before(wide, row[p], row[slot - 1]));
                    }
                }
                return slot;
            }
        }
        slot -= 1;
    }
    slot
}

} // verus!
