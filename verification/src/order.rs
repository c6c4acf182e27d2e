//! Sorting positions by a key.

use vstd::prelude::*;

verus! {

/// Does position `a` come before position `b`: has it a smaller key, or the
/// same key and stands first?
pub open spec fn comes_before(keys: Seq<u64>, a: int, b: int) -> bool {
    keys[a] < keys[b] || (keys[a] == keys[b] && a < b)
}

/// Is `order` in ascending order of key, equal keys in the order they come in?
pub open spec fn is_sorted_order(keys: Seq<u64>, order: Seq<usize>) -> bool {
    forall|i: int, j: int|
        0 <= i < j < order.len() ==> comes_before(
            keys,
            #[trigger] order[i] as int,
            #[trigger] order[j] as int,
        )
}

/// Does `order` hold exactly the positions from `lo` up to `hi`?
pub open spec fn holds_positions(order: Seq<usize>, lo: int, hi: int) -> bool {
    &&& order.len() == hi - lo
    &&& forall|i: int| 0 <= i < order.len() ==> lo <= (#[trigger] order[i]) < hi
    &&& forall|p: int| lo <= p < hi ==> #[trigger] holds_position(order, p)
}

/// Does `order` hold the position `p`?
pub open spec fn holds_position(order: Seq<usize>, p: int) -> bool {
    exists|i: int| 0 <= i < order.len() && (#[trigger] order[i]) == p
}

/// Merges two sorted lists of positions, all of the first below all of the
/// second.
fn merge(keys: &[u64], left: &[usize], right: &[usize], lo: usize, mid: usize, hi: usize) -> (order:
    Vec<usize>)
    requires
        lo <= mid <= hi <= keys@.len(),
        is_sorted_order(keys@, left@),
        is_sorted_order(keys@, right@),
        holds_positions(left@, lo as int, mid as int),
        holds_positions(right@, mid as int, hi as int),
    ensures
        is_sorted_order(keys@, order@),
        holds_positions(order@, lo as int, hi as int),
{
    let mut order: Vec<usize> = Vec::new();
    let mut i: usize = 0;
    let mut j: usize = 0;
    while i < left.len() || j < right.len()
        invariant
            lo <= mid <= hi <= keys@.len(),
            is_sorted_order(keys@, left@),
            is_sorted_order(keys@, right@),
            holds_positions(left@, lo as int, mid as int),
            holds_positions(right@, mid as int, hi as int),
            i <= left@.len(),
            j <= right@.len(),
            order@.len() == i + j,
            is_sorted_order(keys@, order@),
            forall|k: int| 0 <= k < order@.len() ==> lo <= (#[trigger] order@[k]) < hi,
            forall|k: int, m: int|
                0 <= k < order@.len() && i <= m < left@.len() ==> comes_before(
                    keys@,
                    #[trigger] order@[k] as int,
                    #[trigger] left@[m] as int,
                ),
            forall|k: int, m: int|
                0 <= k < order@.len() && j <= m < right@.len() ==> comes_before(
                    keys@,
                    #[trigger] order@[k] as int,
                    #[trigger] right@[m] as int,
                ),
            forall|m: int| 0 <= m < i ==> holds_position(order@, (#[trigger] left@[m]) as int),
            forall|m: int| 0 <= m < j ==> holds_position(order@, (#[trigger] right@[m]) as int),
        decreases left@.len() - i + right@.len() - j,
    {
        let ghost prev = order@;
        let from_left = if i >= left.len() {
            false
        } else if j >= right.len() {
            true
        } else {
            keys[left[i]] <= keys[right[j]]
        };
        if from_left {
            order.push(left[i]);
            i = i + 1;
        } else {
            order.push(right[j]);
            j = j + 1;
        }
        proof {
            assert forall|p: int| holds_position(prev, p) implies holds_position(order@, p) by {
                let k = choose|k: int| 0 <= k < prev.len() && (#[trigger] prev[k]) == p;
                assert(order@[k] == p);
            }
            assert(holds_position(order@, order@.last() as int)) by {
                assert(order@[order@.len() - 1] == order@.last());
            }
        }
    }
    proof {
        assert forall|p: int| lo <= p < hi implies #[trigger] holds_position(order@, p) by {
            if p < mid {
                assert(holds_position(left@, p));
                let m = choose|m: int| 0 <= m < left@.len() && (#[trigger] left@[m]) == p;
                assert(holds_position(order@, left@[m] as int));
            } else {
                assert(holds_position(right@, p));
                let m = choose|m: int| 0 <= m < right@.len() && (#[trigger] right@[m]) == p;
                assert(holds_position(order@, right@[m] as int));
            }
        }
    }
    order
}

/// The positions from `lo` up to `hi`, in ascending order of key.
fn sort_range(keys: &[u64], lo: usize, hi: usize) -> (order: Vec<usize>)
    requires
        lo <= hi <= keys@.len(),
    ensures
        is_sorted_order(keys@, order@),
        holds_positions(order@, lo as int, hi as int),
    decreases hi - lo,
{
    if hi - lo == 0 {
        return Vec::new();
    }
    if hi - lo == 1 {
        let mut order: Vec<usize> = Vec::new();
        order.push(lo);
        assert(order@[0] == lo);
        return order;
    }
    let mid = lo + (hi - lo) / 2;
    let left = sort_range(keys, lo, mid);
    let right = sort_range(keys, mid, hi);
    merge(keys, &left, &right, lo, mid, hi)
}

/// The positions of `keys` in ascending order of key, equal keys in the order
/// that they come in. There is one such list.
pub open spec fn sorted_order(keys: Seq<u64>) -> Seq<usize> {
    choose|order: Seq<usize>|
        is_sorted_order(keys, order) && #[trigger] holds_positions(order, 0, keys.len() as int)
}

proof fn lemma_order_agrees(keys: Seq<u64>, a: Seq<usize>, b: Seq<usize>, i: int)
    requires
        is_sorted_order(keys, a),
        is_sorted_order(keys, b),
        holds_positions(a, 0, keys.len() as int),
        holds_positions(b, 0, keys.len() as int),
        0 <= i < keys.len(),
    ensures
        a[i] == b[i],
    decreases i,
{
    assert forall|k: int| 0 <= k < i implies a[k] == b[k] by {
        lemma_order_agrees(keys, a, b, k);
    }
    if a[i] != b[i] {
        assert(holds_position(b, a[i] as int));
        let j = choose|j: int| 0 <= j < b.len() && (#[trigger] b[j]) == a[i] as int;
        assert(holds_position(a, b[i] as int));
        let m = choose|m: int| 0 <= m < a.len() && (#[trigger] a[m]) == b[i] as int;
        if j < i {
            assert(comes_before(keys, a[j] as int, a[i] as int));
        }
        if m < i {
            assert(comes_before(keys, b[m] as int, b[i] as int));
        }
        assert(comes_before(keys, b[i] as int, b[j] as int));
        assert(comes_before(keys, a[i] as int, a[m] as int));
    }
}

/// The sorted order is the only list of its kind.
pub proof fn lemma_sorted_order_unique(keys: Seq<u64>, order: Seq<usize>)
    requires
        is_sorted_order(keys, order),
        holds_positions(order, 0, keys.len() as int),
    ensures
        sorted_order(keys) == order,
{
    let other = sorted_order(keys);
    assert(is_sorted_order(keys, other) && holds_positions(other, 0, keys.len() as int));
    assert forall|i: int| 0 <= i < keys.len() implies other[i] == order[i] by {
        lemma_order_agrees(keys, other, order, i);
    }
    assert(other =~= order);
}

/// The first `hi` positions can be put in ascending order of key.
proof fn lemma_order_exists(keys: Seq<u64>, hi: int) -> (order: Seq<usize>)
    requires
        0 <= hi <= keys.len() <= usize::MAX,
    ensures
        is_sorted_order(keys, order),
        holds_positions(order, 0, hi),
    decreases hi,
{
    if hi == 0 {
        Seq::empty()
    } else {
        let rest = lemma_order_exists(keys, hi - 1);
        lemma_order_extends(keys, hi, rest)
    }
}

/// Positions in ascending order of key can be joined by the next one.
proof fn lemma_order_extends(keys: Seq<u64>, hi: int, rest: Seq<usize>) -> (order: Seq<usize>)
    requires
        0 < hi <= keys.len() <= usize::MAX,
        is_sorted_order(keys, rest),
        holds_positions(rest, 0, hi - 1),
    ensures
        is_sorted_order(keys, order),
        holds_positions(order, 0, hi),
{
    let last = hi - 1;
    let at = lemma_insertion_point(keys, rest, last);
    let order = rest.insert(at, last as usize);
    assert forall|i: int, j: int| 0 <= i < j < order.len() implies comes_before(
        keys,
        #[trigger] order[i] as int,
        #[trigger] order[j] as int,
    ) by {
        let a = if i < at { i } else { i - 1 };
        let b = if j < at { j } else { j - 1 };
        if i != at && j != at {
            assert(comes_before(keys, rest[a] as int, rest[b] as int));
        } else if i == at {
            assert(keys[rest[b] as int] > keys[last]);
        } else {
            assert(keys[rest[a] as int] <= keys[last]);
        }
    }
    assert forall|p: int| 0 <= p < hi implies #[trigger] holds_position(order, p) by {
        if p == last {
            assert(order[at] == p);
        } else {
            assert(holds_position(rest, p));
            let i = choose|i: int| 0 <= i < rest.len() && (#[trigger] rest[i]) == p;
            assert(order[if i < at { i } else { i + 1 }] == p);
        }
    }
    assert forall|i: int| 0 <= i < order.len() implies 0 <= (#[trigger] order[i]) < hi by {
        if i != at {
            assert(order[i] == rest[if i < at { i } else { i - 1 }]);
        }
    }
    order
}

/// Where a later position goes: behind everything with a key that is not
/// larger.
proof fn lemma_insertion_point(keys: Seq<u64>, order: Seq<usize>, p: int) -> (at: int)
    requires
        is_sorted_order(keys, order),
    ensures
        0 <= at <= order.len(),
        forall|i: int| 0 <= i < at ==> keys[(#[trigger] order[i]) as int] <= keys[p],
        forall|i: int| at <= i < order.len() ==> keys[(#[trigger] order[i]) as int] > keys[p],
    decreases order.len(),
{
    let last = order.len() - 1;
    if order.len() == 0 {
        0
    } else if keys[order[last] as int] > keys[p] {
        let rest = order.drop_last();
        assert forall|i: int, j: int| 0 <= i < j < rest.len() implies comes_before(
            keys,
            #[trigger] rest[i] as int,
            #[trigger] rest[j] as int,
        ) by {
            assert(comes_before(keys, order[i] as int, order[j] as int));
        }
        let at = lemma_insertion_point(keys, rest, p);
        assert forall|i: int| 0 <= i < at implies keys[(#[trigger] order[i]) as int]
            <= keys[p] by {
            assert(order[i] == rest[i]);
        }
        assert forall|i: int| at <= i < order.len() implies keys[(#[trigger] order[i]) as int]
            > keys[p] by {
            if i < last {
                assert(order[i] == rest[i]);
            }
        }
        at
    } else {
        assert forall|i: int| 0 <= i < order.len() implies keys[(#[trigger] order[i]) as int]
            <= keys[p] by {
            if i < last {
                assert(comes_before(keys, order[i] as int, order[last] as int));
            }
        }
        order.len() as int
    }
}

/// The sorted order of keys is in ascending order, and has every position
/// once.
pub proof fn lemma_sorted_order(keys: Seq<u64>)
    requires
        keys.len() <= usize::MAX,
    ensures
        is_sorted_order(keys, sorted_order(keys)),
        holds_positions(sorted_order(keys), 0, keys.len() as int),
        sorted_order(keys).no_duplicates(),
{
    let order = lemma_order_exists(keys, keys.len() as int);
    lemma_sorted_order_unique(keys, order);
    assert forall|i: int, j: int| 0 <= i < order.len() && 0 <= j < order.len() && i
        != j implies order[i] != order[j] by {
        if i < j {
            assert(comes_before(keys, order[i] as int, order[j] as int));
        } else {
            assert(comes_before(keys, order[j] as int, order[i] as int));
        }
    }
}

/// Every position of `keys`, in ascending order of key; equal keys keep their
/// order.
pub fn sort_positions(keys: &[u64]) -> (order: Vec<usize>)
    ensures
        order@ == sorted_order(keys@),
        is_sorted_order(keys@, order@),
        holds_positions(order@, 0, keys@.len() as int),
{
    assert(keys.len() == keys@.len());
    let order = sort_range(keys, 0, keys.len());
    proof {
        lemma_sorted_order_unique(keys@, order@);
    }
    order
}

} // verus!
