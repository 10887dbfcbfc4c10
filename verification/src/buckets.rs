//! Grouping positions by key: a counting sort.

use vstd::prelude::*;

verus! {

/// The positions below `upto` whose key is `key`, in increasing order.
pub open spec fn positions(keys: Seq<u32>, key: int, upto: int) -> Seq<int>
    decreases upto,
{
    if upto <= 0 {
        Seq::empty()
    } else if keys[upto - 1] == key {
        positions(keys, key, upto - 1).push(upto - 1)
    } else {
        positions(keys, key, upto - 1)
    }
}

/// All positions whose key is `key`, in increasing order.
pub open spec fn bucket(keys: Seq<u32>, key: int) -> Seq<int> {
    positions(keys, key, keys.len() as int)
}

/// The number of positions below `upto` whose key is below `key`.
pub open spec fn below(keys: Seq<u32>, key: int, upto: int) -> int
    decreases key,
{
    if key <= 0 {
        0
    } else {
        below(keys, key - 1, upto) + positions(keys, key - 1, upto).len()
    }
}

/// Whether `items[offsets[key]..offsets[key + 1]]` are the positions with that key, for every
/// key below `count`.
pub open spec fn grouped(keys: Seq<u32>, count: int, offsets: Seq<u32>, items: Seq<u32>) -> bool {
    &&& offsets.len() == count + 1
    &&& items.len() == keys.len()
    &&& offsets[0] == 0
    &&& offsets[count] == keys.len()
    &&& forall|key: int|
        #![trigger bucket(keys, key)]
        0 <= key < count ==> offsets[key] + bucket(keys, key).len() == offsets[key + 1]
    &&& forall|key: int, i: int|
        #![trigger bucket(keys, key)[i]]
        0 <= key < count && 0 <= i < bucket(keys, key).len() ==> items[offsets[key] + i] == bucket(
            keys,
            key,
        )[i]
}

/// What is in a bucket: the positions with that key, in increasing order.
pub proof fn positions_are(keys: Seq<u32>, key: int, upto: int)
    requires
        0 <= upto <= keys.len(),
    ensures
        positions(keys, key, upto).len() <= upto,
        forall|i: int|
            0 <= i < positions(keys, key, upto).len() ==> 0 <= #[trigger] positions(keys, key, upto)[i]
                < upto && keys[positions(keys, key, upto)[i]] == key,
        forall|i: int, j: int|
            0 <= i < j < positions(keys, key, upto).len() ==> positions(keys, key, upto)[i]
                < positions(keys, key, upto)[j],
        forall|at: int|
            0 <= at < upto && keys[at] == key ==> #[trigger] positions(keys, key, upto).contains(at),
    decreases upto,
{
    if upto > 0 {
        positions_are(keys, key, upto - 1);
        let before = positions(keys, key, upto - 1);
        let now = positions(keys, key, upto);
        assert forall|at: int| 0 <= at < upto && keys[at] == key implies #[trigger] now.contains(at) by {
            if at < upto - 1 {
                assert(before.contains(at));
                let i = choose|i: int| 0 <= i < before.len() && before[i] == at;
                assert(now[i] == at);
            } else {
                assert(now[before.len() as int] == at);
            }
        }
    }
}

proof fn positions_grow(keys: Seq<u32>, key: int, some: int, all: int)
    requires
        0 <= some <= all <= keys.len(),
    ensures
        positions(keys, key, some).len() <= positions(keys, key, all).len(),
        some < all && keys[some] == key ==> positions(keys, key, some).len() < positions(
            keys,
            key,
            all,
        ).len(),
        forall|i: int|
            0 <= i < positions(keys, key, some).len() ==> positions(keys, key, some)[i]
                == #[trigger] positions(keys, key, all)[i],
    decreases all,
{
    if some < all {
        if some == all - 1 {
        } else {
            positions_grow(keys, key, some, all - 1);
        }
    }
}

proof fn below_step(keys: Seq<u32>, key: int, upto: int)
    requires
        0 < upto <= keys.len(),
        0 <= key,
    ensures
        below(keys, key, upto) == below(keys, key, upto - 1) + (if keys[upto - 1] < key {
            1int
        } else {
            0int
        }),
    decreases key,
{
    if key > 0 {
        below_step(keys, key - 1, upto);
    }
}

proof fn below_all(keys: Seq<u32>, count: int, upto: int)
    requires
        0 <= upto <= keys.len(),
        0 <= count,
        forall|i: int| 0 <= i < keys.len() ==> keys[i] < count,
    ensures
        below(keys, count, upto) == upto,
    decreases upto,
{
    if upto > 0 {
        below_all(keys, count, upto - 1);
        below_step(keys, count, upto);
    } else {
        below_none(keys, count);
    }
}

proof fn below_none(keys: Seq<u32>, count: int)
    requires
        0 <= count,
    ensures
        below(keys, count, 0) == 0,
    decreases count,
{
    if count > 0 {
        below_none(keys, count - 1);
    }
}

proof fn below_grows(keys: Seq<u32>, low: int, high: int, upto: int)
    requires
        0 <= low <= high,
        0 <= upto <= keys.len(),
    ensures
        0 <= below(keys, low, upto) <= below(keys, high, upto),
        low < high ==> below(keys, low, upto) + positions(keys, low, upto).len() <= below(
            keys,
            high,
            upto,
        ),
    decreases high,
{
    if high > 0 {
        if low < high {
            below_grows(keys, low, high - 1, upto);
        } else {
            below_grows(keys, low - 1, high - 1, upto);
        }
    }
}

/// In a grouping, the offset of a key is the number of positions with a smaller key.
pub proof fn offsets_are_below(keys: Seq<u32>, count: int, offsets: Seq<u32>, items: Seq<u32>, key: int)
    requires
        grouped(keys, count, offsets, items),
        0 <= key <= count,
    ensures
        offsets[key] == below(keys, key, keys.len() as int),
        0 <= offsets[key] <= keys.len(),
        key < count ==> offsets[key] <= offsets[key + 1] <= keys.len(),
    decreases key,
{
    if key > 0 {
        offsets_are_below(keys, count, offsets, items, key - 1);
        assert(offsets[key - 1] + bucket(keys, key - 1).len() == offsets[key - 1 + 1]);
    }
    offsets_climb(keys, count, offsets, items, key);
    if key < count {
        assert(offsets[key] + bucket(keys, key).len() == offsets[key + 1]);
        offsets_climb(keys, count, offsets, items, key + 1);
    }
}

proof fn offsets_climb(keys: Seq<u32>, count: int, offsets: Seq<u32>, items: Seq<u32>, key: int)
    requires
        grouped(keys, count, offsets, items),
        0 <= key <= count,
    ensures
        offsets[key] <= keys.len(),
    decreases count - key,
{
    if key < count {
        assert(offsets[key] + bucket(keys, key).len() == offsets[key + 1]);
        offsets_climb(keys, count, offsets, items, key + 1);
    }
}

/// In a grouping, the items are positions.
pub proof fn items_are_positions(
    keys: Seq<u32>,
    count: int,
    offsets: Seq<u32>,
    items: Seq<u32>,
    slot: int,
)
    requires
        grouped(keys, count, offsets, items),
        0 <= count,
        0 <= slot < items.len(),
    ensures
        0 <= items[slot] < keys.len(),
{
    let key = bucket_at(keys, count, offsets, items, slot, count);
    let i = slot - offsets[key];
    positions_are(keys, key, keys.len() as int);
    assert(offsets[key] + bucket(keys, key).len() == offsets[key + 1]);
    assert(items[offsets[key] + i] == bucket(keys, key)[i]);
}

proof fn bucket_at(
    keys: Seq<u32>,
    count: int,
    offsets: Seq<u32>,
    items: Seq<u32>,
    slot: int,
    high: int,
) -> (key: int)
    requires
        grouped(keys, count, offsets, items),
        0 <= high <= count,
        0 <= slot < offsets[high],
    ensures
        0 <= key < high,
        offsets[key] <= slot < offsets[key + 1],
    decreases high,
{
    if high == 0 {
        0
    } else if offsets[high - 1] <= slot {
        high - 1
    } else {
        bucket_at(keys, count, offsets, items, slot, high - 1)
    }
}

/// In a grouping, the offsets climb with the keys.
pub proof fn offsets_climb_between(
    keys: Seq<u32>,
    count: int,
    offsets: Seq<u32>,
    items: Seq<u32>,
    low: int,
    high: int,
)
    requires
        grouped(keys, count, offsets, items),
        0 <= low <= high <= count,
    ensures
        offsets[low] <= offsets[high],
    decreases high - low,
{
    if low < high {
        assert(offsets[low] + bucket(keys, low).len() == offsets[low + 1]);
        offsets_climb_between(keys, count, offsets, items, low + 1, high);
    }
}

/// Groups the positions of `keys` by key with a counting sort: the positions with key `k` are
/// `items[offsets[k]..offsets[k + 1]]`.
pub(crate) fn group(keys: &Vec<u32>, count: usize) -> (grouping: (Vec<u32>, Vec<u32>))
    requires
        keys@.len() <= u32::MAX,
        forall|i: int| 0 <= i < keys@.len() ==> keys@[i] < count,
    ensures
        grouped(keys@, count as int, grouping.0@, grouping.1@),
{
    let total: usize = keys.len();
    let ghost all = total as int;
    let mut offsets: Vec<u32> = Vec::new();
    offsets.resize(count, 0);
    offsets.push(0);
    let mut at: usize = 0;
    while at < total
        invariant
            at <= total == keys@.len() <= u32::MAX,
                offsets@.len() == count + 1,
            offsets@[0] == 0,
            forall|i: int| 0 <= i < keys@.len() ==> keys@[i] < count,
            forall|key: int|
                0 <= key < count ==> #[trigger] offsets@[key + 1] == positions(
                    keys@,
                    key,
                    at as int,
                ).len(),
        decreases total - at,
    {
        let key: usize = keys[at] as usize;
        proof {
            positions_are(keys@, key as int, at as int);
            assert(offsets@[key + 1] == positions(keys@, key as int, at as int).len());
        }
        offsets[key + 1] = offsets[key + 1] + 1;
        at = at + 1;
    }
    let mut key: usize = 0;
    while key < count
        invariant
            key <= count,
            total == keys@.len() <= u32::MAX,
            all == total,
            forall|i: int| 0 <= i < keys@.len() ==> keys@[i] < count,
            offsets@.len() == count + 1,
            offsets@[0] == 0,
            forall|k: int| 0 <= k <= key ==> #[trigger] offsets@[k] == below(keys@, k, all),
            forall|k: int|
                key <= k < count ==> #[trigger] offsets@[k + 1] == positions(keys@, k, all).len(),
        decreases count - key,
    {
        proof {
            below_all(keys@, count as int, all);
            below_grows(keys@, key + 1, count as int, all);
            assert(offsets@[key + 1] == positions(keys@, key as int, all).len());
            assert(offsets@[key as int] == below(keys@, key as int, all));
        }
        offsets[key + 1] = offsets[key + 1] + offsets[key];
        key = key + 1;
    }
    proof {
        below_all(keys@, count as int, all);
        assert forall|k: int| 0 <= k < count implies #[trigger] positions(keys@, k, 0).len() == 0 by {
        }
    }
    let mut fill: Vec<u32> = offsets.clone();
    assert(fill@ =~= offsets@);
    let mut items: Vec<u32> = Vec::new();
    items.resize(total, 0);
    let mut at: usize = 0;
    while at < total
        invariant
            at <= total == keys@.len() <= u32::MAX,
            all == total,
            forall|i: int| 0 <= i < keys@.len() ==> keys@[i] < count,
            offsets@.len() == count + 1,
            fill@.len() == count + 1,
            items@.len() == total,
            forall|k: int| 0 <= k <= count ==> #[trigger] offsets@[k] == below(keys@, k, all),
            forall|k: int|
                0 <= k < count ==> #[trigger] fill@[k] == offsets@[k] + positions(
                    keys@,
                    k,
                    at as int,
                ).len(),
            forall|k: int, i: int|
                #![trigger positions(keys@, k, at as int)[i]]
                0 <= k < count && 0 <= i < positions(keys@, k, at as int).len() ==> items@[offsets@[k]
                    + i] == positions(keys@, k, at as int)[i],
        decreases total - at,
    {
        let key: usize = keys[at] as usize;
        let ghost before = items@;
        let slot: usize = fill[key] as usize;
        proof {
            assert(fill@[key as int] == offsets@[key as int] + positions(
                keys@,
                key as int,
                at as int,
            ).len());
            positions_grow(keys@, key as int, at as int, all);
            below_all(keys@, count as int, all);
            below_grows(keys@, key as int, count as int, all);
        }
        items.set(slot, at as u32);
        fill.set(key, (slot + 1) as u32);
        proof {
            assert forall|k: int, i: int|
                #![trigger positions(keys@, k, at + 1)[i]]
                0 <= k < count && 0 <= i < positions(keys@, k, at + 1).len() implies items@[offsets@[k]
                + i] == positions(keys@, k, at + 1)[i] by {
                positions_grow(keys@, k, at as int, all);
                assert(offsets@[k] == below(keys@, k, all));
                assert(offsets@[key as int] == below(keys@, key as int, all));
                if k < key {
                    below_grows(keys@, k, key as int, all);
                } else if k > key {
                    below_grows(keys@, key as int, k, all);
                }
                if i < positions(keys@, k, at as int).len() {
                    assert(positions(keys@, k, at + 1)[i] == positions(keys@, k, at as int)[i]);
                    assert(before[offsets@[k] + i] == positions(keys@, k, at as int)[i]);
                    below_grows(keys@, k, count as int, all);
                }
            }
        }
        at = at + 1;
    }
    assert forall|k: int| #![trigger bucket(keys@, k)] 0 <= k < count implies offsets@[k] + bucket(
        keys@,
        k,
    ).len() == offsets@[k + 1] by {
        assert(offsets@[k] == below(keys@, k, all) && offsets@[k + 1] == below(keys@, k + 1, all));
    }
    (offsets, items)
}

} // verus!
