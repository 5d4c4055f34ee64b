//! Ordering by descending keys, equal keys in the order in which they came.
use vstd::prelude::*;

verus! {

/// How many of the leading indices have keys that are at least `key`.
pub open spec fn slot(indices: Seq<int>, keys: Seq<u64>, key: u64) -> int
    decreases indices.len(),
{
    if indices.len() == 0 || keys[indices[0]] < key {
        0
    } else {
        1 + slot(indices.skip(1), keys, key)
    }
}

/// The indices of some keys, ordered by descending key; where keys are equal, by index.
pub open spec fn descending(keys: Seq<u64>) -> Seq<int>
    decreases keys.len(),
{
    if keys.len() == 0 {
        Seq::empty()
    } else {
        let before = descending(keys.drop_last());
        before.insert(slot(before, keys, keys.last()), keys.len() - 1)
    }
}

/// Whether `a` comes before `b`: its key is greater, or equal and `a` came first.
pub open spec fn ahead(keys: Seq<u64>, a: int, b: int) -> bool {
    keys[a] > keys[b] || (keys[a] == keys[b] && a < b)
}

proof fn lemma_slot(indices: Seq<int>, keys: Seq<u64>, key: u64)
    ensures
        0 <= slot(indices, keys, key) <= indices.len(),
        forall|i: int| 0 <= i < slot(indices, keys, key) ==> keys[#[trigger] indices[i]] >= key,
        slot(indices, keys, key) < indices.len() ==> keys[indices[slot(indices, keys, key)]] < key,
    decreases indices.len(),
{
    if indices.len() > 0 && keys[indices[0]] >= key {
        lemma_slot(indices.skip(1), keys, key);
        assert forall|i: int| 0 <= i < slot(indices, keys, key) implies keys[#[trigger] indices[i]]
            >= key by {
            if i > 0 {
                assert(indices[i] == indices.skip(1)[i - 1]);
            }
        }
    }
}

proof fn lemma_slot_is(indices: Seq<int>, keys: Seq<u64>, key: u64, at: int)
    requires
        0 <= at <= indices.len(),
        forall|i: int| 0 <= i < at ==> keys[#[trigger] indices[i]] >= key,
        at < indices.len() ==> keys[indices[at]] < key,
    ensures
        slot(indices, keys, key) == at,
{
    lemma_slot(indices, keys, key);
    let s = slot(indices, keys, key);
    if s < at {
        assert(keys[indices[s]] >= key);
    }
    if at < s {
        assert(keys[indices[at]] >= key);
    }
}

/// The order holds every index exactly once, and whatever comes earlier is ahead of what comes
/// later.
pub proof fn descending_is_an_order(keys: Seq<u64>)
    ensures
        descending(keys).len() == keys.len(),
        forall|i: int| 0 <= i < keys.len() ==> 0 <= #[trigger] descending(keys)[i] < keys.len(),
        forall|i: int, j: int|
            0 <= i < j < keys.len() ==> ahead(
                keys,
                #[trigger] descending(keys)[i],
                #[trigger] descending(keys)[j],
            ),
        forall|k: int| 0 <= k < keys.len() ==> #[trigger] descending(keys).contains(k),
    decreases keys.len(),
{
    if keys.len() > 0 {
        let shorter = keys.drop_last();
        let before = descending(shorter);
        let last = keys.len() - 1;
        let at = slot(before, keys, keys.last());
        let order = descending(keys);
        descending_is_an_order(shorter);
        lemma_slot(before, keys, keys.last());
        assert(order == before.insert(at, last));
        assert forall|i: int, j: int| 0 <= i < j < keys.len() implies ahead(
            keys,
            #[trigger] order[i],
            #[trigger] order[j],
        ) by {
            let bi = if i < at {
                i
            } else {
                i - 1
            };
            let bj = if j < at {
                j
            } else {
                j - 1
            };
            if i == at {
                assert(order[j] == before[bj]);
                assert(keys[before[at]] < keys.last());
                if bj > at {
                    assert(ahead(shorter, before[at], before[bj]));
                }
            } else if j == at {
                assert(order[i] == before[bi]);
                assert(keys[before[bi]] >= keys.last());
            } else {
                assert(order[i] == before[bi] && order[j] == before[bj]);
                assert(ahead(shorter, before[bi], before[bj]));
            }
        }
        assert forall|k: int| 0 <= k < keys.len() implies #[trigger] order.contains(k) by {
            if k == last {
                assert(order[at] == k);
            } else {
                assert(before.contains(k));
                let i = choose|i: int| 0 <= i < before.len() && before[i] == k;
                if i < at {
                    assert(order[i] == k);
                } else {
                    assert(order[i + 1] == k);
                }
            }
        }
    }
}

/// The indices as numbers of the specification.
pub open spec fn as_ints(indices: Seq<usize>) -> Seq<int> {
    Seq::new(indices.len(), |i: int| indices[i] as int)
}

/// The indices of some keys by descending key.
pub fn order_descending(keys: &Vec<u64>) -> (res: Vec<usize>)
    ensures
        as_ints(res@) == descending(keys@),
        res@.len() == keys@.len(),
        forall|i: int| 0 <= i < res@.len() ==> #[trigger] res@[i] < keys@.len(),
{
    let mut order: Vec<usize> = Vec::new();
    let mut n: usize = 0;
    assert(as_ints(order@) =~= descending(keys@.take(0)));
    while n < keys.len()
        invariant
            0 <= n <= keys@.len(),
            as_ints(order@) == descending(keys@.take(n as int)),
            order@.len() == n,
            forall|i: int| 0 <= i < order@.len() ==> #[trigger] order@[i] < n,
        decreases keys@.len() - n,
    {
        let ghost before = as_ints(order@);
        let ghost prefix = keys@.take(n + 1);
        let mut at: usize = n;
        proof {
            assert(prefix.drop_last() =~= keys@.take(n as int));
            descending_is_an_order(keys@.take(n as int));
        }
        while at > 0 && keys[order[at - 1]] < keys[n]
            invariant
                n < keys@.len(),
                0 <= at <= n,
                order@.len() == n,
                forall|i: int| 0 <= i < order@.len() ==> #[trigger] order@[i] < n,
                forall|i: int| at <= i < n ==> keys@[#[trigger] order@[i] as int] < keys@[n as int],
            decreases at,
        {
            at = at - 1;
        }
        proof {
            let shorter = keys@.take(n as int);
            assert forall|i: int| 0 <= i < at implies prefix[#[trigger] before[i]] >= prefix.last() by {
                let k = at - 1;
                assert(before[k] == order@[k]);
                if i < k {
                    assert(ahead(shorter, before[i], before[k]));
                }
                assert(prefix[before[i]] == shorter[before[i]]);
            }
            if at < n {
                assert(before[at as int] == order@[at as int]);
            }
            lemma_slot_is(before, prefix, prefix.last(), at as int);
        }
        order.insert(at, n);
        assert(as_ints(order@) =~= before.insert(at as int, n as int));
        n = n + 1;
    }
    assert(keys@.take(n as int) =~= keys@);
    order
}

} // verus!
