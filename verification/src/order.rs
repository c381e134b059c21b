//! Stable ordering of ids by an integer key.
//!
//! Ids index into a sequence of keys. Sorting a list of ids keeps ids with
//! equal keys in the order in which the list held them.

use vstd::prelude::*;

verus! {

/// `a` comes strictly before `b` when ordered by key and, among equal keys,
/// by id.
pub open spec fn key_before(keys: Seq<usize>, a: usize, b: usize) -> bool {
    keys[a as int] < keys[b as int] || (keys[a as int] == keys[b as int] && a < b)
}

/// The ids `0, 1, .., n - 1`.
pub open spec fn iota(n: nat) -> Seq<usize> {
    Seq::new(n, |i: int| i as usize)
}

/// Every id of the list indexes into `keys`.
pub open spec fn ids_in_range(ids: Seq<usize>, keys: Seq<usize>) -> bool {
    forall|i: int| 0 <= i < ids.len() ==> #[trigger] ids[i] < keys.len()
}

/// The list is strictly increasing.
pub open spec fn ascending(ids: Seq<usize>) -> bool {
    forall|i: int, j: int| 0 <= i < j < ids.len() ==> #[trigger] ids[i] < #[trigger] ids[j]
}

/// The list is strictly increasing by key and, among equal keys, by id.
pub open spec fn sorted_by_key(ids: Seq<usize>, keys: Seq<usize>) -> bool {
    forall|i: int, j: int|
        0 <= i < j < ids.len() ==> key_before(keys, #[trigger] ids[i], #[trigger] ids[j])
}

/// `sorted` with `id` placed behind every entry whose key is not greater,
/// looking from the end.
pub open spec fn insert_by_key(sorted: Seq<usize>, keys: Seq<usize>, id: usize) -> Seq<usize>
    decreases sorted.len(),
{
    if sorted.len() == 0 {
        seq![id]
    } else if keys[sorted.last() as int] <= keys[id as int] {
        sorted.push(id)
    } else {
        insert_by_key(sorted.drop_last(), keys, id).push(sorted.last())
    }
}

/// The ids of the list ordered by key; ids with equal keys stay in the order
/// of the list.
pub open spec fn stable_sort(ids: Seq<usize>, keys: Seq<usize>) -> Seq<usize>
    decreases ids.len(),
{
    if ids.len() == 0 {
        Seq::empty()
    } else {
        insert_by_key(stable_sort(ids.drop_last(), keys), keys, ids.last())
    }
}

/// Inserting adds exactly the new id and keeps a sorted list sorted, given
/// that the new id is greater than every id already there.
pub proof fn lemma_insert_by_key(sorted: Seq<usize>, keys: Seq<usize>, id: usize)
    ensures
        insert_by_key(sorted, keys, id).len() == sorted.len() + 1,
        forall|x: usize|
            insert_by_key(sorted, keys, id).contains(x) <==> (sorted.contains(x) || x == id),
        sorted_by_key(sorted, keys) && (forall|i: int|
            0 <= i < sorted.len() ==> #[trigger] sorted[i] < id) ==> sorted_by_key(
            insert_by_key(sorted, keys, id),
            keys,
        ),
    decreases sorted.len(),
{
    let out = insert_by_key(sorted, keys, id);
    if sorted.len() == 0 {
        assert(out[0] == id);
        assert forall|x: usize| out.contains(x) <==> (sorted.contains(x) || x == id) by {
            if x == id {
                assert(out[0] == x);
            }
        }
    } else if keys[sorted.last() as int] <= keys[id as int] {
        assert forall|x: usize| out.contains(x) <==> (sorted.contains(x) || x == id) by {
            if sorted.contains(x) {
                let i = choose|i: int| 0 <= i < sorted.len() && sorted[i] == x;
                assert(out[i] == x);
            }
            if x == id {
                assert(out[sorted.len() as int] == x);
            }
        }
        if sorted_by_key(sorted, keys) && (forall|i: int|
            0 <= i < sorted.len() ==> #[trigger] sorted[i] < id) {
            assert forall|i: int, j: int| 0 <= i < j < out.len() implies key_before(
                keys,
                #[trigger] out[i],
                #[trigger] out[j],
            ) by {
                if j == sorted.len() {
                    if i < sorted.len() - 1 {
                        assert(key_before(keys, sorted[i], sorted[sorted.len() - 1]));
                    }
                    assert(sorted[i] < id);
                } else {
                    assert(key_before(keys, sorted[i], sorted[j]));
                }
            }
        }
    } else {
        let front = sorted.drop_last();
        let inner = insert_by_key(front, keys, id);
        lemma_insert_by_key(front, keys, id);
        assert forall|x: usize| out.contains(x) <==> (sorted.contains(x) || x == id) by {
            if out.contains(x) {
                let i = choose|i: int| 0 <= i < out.len() && out[i] == x;
                if i < inner.len() {
                    assert(inner[i] == x);
                    assert(inner.contains(x));
                    if front.contains(x) {
                        let k = choose|k: int| 0 <= k < front.len() && front[k] == x;
                        assert(sorted[k] == x);
                    }
                } else {
                    assert(sorted[sorted.len() - 1] == x);
                }
            }
            if sorted.contains(x) {
                let i = choose|i: int| 0 <= i < sorted.len() && sorted[i] == x;
                if i < front.len() {
                    assert(front[i] == x);
                    assert(front.contains(x));
                    assert(inner.contains(x));
                    let k = choose|k: int| 0 <= k < inner.len() && inner[k] == x;
                    assert(out[k] == x);
                } else {
                    assert(out[inner.len() as int] == x);
                }
            }
            if x == id {
                assert(inner.contains(x));
                let k = choose|k: int| 0 <= k < inner.len() && inner[k] == x;
                assert(out[k] == x);
            }
        }
        if sorted_by_key(sorted, keys) && (forall|i: int|
            0 <= i < sorted.len() ==> #[trigger] sorted[i] < id) {
            assert(sorted_by_key(front, keys)) by {
                assert forall|i: int, j: int| 0 <= i < j < front.len() implies key_before(
                    keys,
                    #[trigger] front[i],
                    #[trigger] front[j],
                ) by {
                    assert(key_before(keys, sorted[i], sorted[j]));
                }
            }
            assert forall|i: int| 0 <= i < front.len() implies #[trigger] front[i] < id by {
                assert(sorted[i] < id);
            }
            assert forall|i: int, j: int| 0 <= i < j < out.len() implies key_before(
                keys,
                #[trigger] out[i],
                #[trigger] out[j],
            ) by {
                if j < inner.len() {
                    assert(key_before(keys, inner[i], inner[j]));
                } else {
                    let x = inner[i];
                    assert(inner.contains(x));
                    if x != id {
                        assert(front.contains(x));
                        let k = choose|k: int| 0 <= k < front.len() && front[k] == x;
                        assert(key_before(keys, sorted[k], sorted[sorted.len() - 1]));
                    }
                }
            }
        }
    }
}

/// Sorting an ascending list of ids yields the same ids, strictly ordered by
/// key and, among equal keys, by id.
pub proof fn lemma_stable_sort(ids: Seq<usize>, keys: Seq<usize>)
    requires
        ascending(ids),
    ensures
        stable_sort(ids, keys).len() == ids.len(),
        forall|x: usize| stable_sort(ids, keys).contains(x) <==> ids.contains(x),
        sorted_by_key(stable_sort(ids, keys), keys),
    decreases ids.len(),
{
    let out = stable_sort(ids, keys);
    if ids.len() == 0 {
    } else {
        let front = ids.drop_last();
        let inner = stable_sort(front, keys);
        assert(ascending(front)) by {
            assert forall|i: int, j: int| 0 <= i < j < front.len() implies #[trigger] front[i]
                < #[trigger] front[j] by {
                assert(ids[i] < ids[j]);
            }
        }
        lemma_stable_sort(front, keys);
        lemma_insert_by_key(inner, keys, ids.last());
        assert forall|i: int| 0 <= i < inner.len() implies #[trigger] inner[i] < ids.last() by {
            let x = inner[i];
            assert(inner.contains(x));
            assert(front.contains(x));
            let k = choose|k: int| 0 <= k < front.len() && front[k] == x;
            assert(ids[k] < ids[ids.len() - 1]);
        }
        assert forall|x: usize| out.contains(x) <==> ids.contains(x) by {
            if ids.contains(x) {
                let i = choose|i: int| 0 <= i < ids.len() && ids[i] == x;
                if i < front.len() {
                    assert(front[i] == x);
                }
            }
            if front.contains(x) {
                let k = choose|k: int| 0 <= k < front.len() && front[k] == x;
                assert(ids[k] == x);
            }
            if x == ids.last() {
                assert(ids[ids.len() - 1] == x);
            }
        }
    }
}

/// Executable form of [`insert_by_key`].
fn insert_sorted(sorted: &mut Vec<usize>, keys: &Vec<usize>, id: usize)
    requires
        id < keys.len(),
        ids_in_range(old(sorted)@, keys@),
    ensures
        final(sorted)@ == insert_by_key(old(sorted)@, keys@, id),
        ids_in_range(final(sorted)@, keys@),
{
    let ghost start = sorted@;
    let mut pos: usize = sorted.len();
    assert(start.take(pos as int) =~= start && start.skip(pos as int) =~= Seq::empty());
    assert(insert_by_key(start, keys@, id) + Seq::empty() =~= insert_by_key(start, keys@, id));
    while pos > 0 && keys[sorted[pos - 1]] > keys[id]
        invariant
            pos <= sorted.len(),
            sorted@ == start,
            id < keys.len(),
            ids_in_range(start, keys@),
            insert_by_key(start, keys@, id) == insert_by_key(start.take(pos as int), keys@, id)
                + start.skip(pos as int),
        decreases pos,
    {
        proof {
            let head = start.take(pos as int);
            assert(head.last() == start[pos - 1]);
            assert(head.drop_last() =~= start.take(pos - 1));
            assert(insert_by_key(head.drop_last(), keys@, id).push(head.last()) + start.skip(
                pos as int,
            ) =~= insert_by_key(start.take(pos - 1), keys@, id) + start.skip(pos - 1));
        }
        pos -= 1;
    }
    proof {
        let head = start.take(pos as int);
        if pos > 0 {
            assert(head.last() == start[pos - 1]);
        }
        assert(insert_by_key(head, keys@, id) + start.skip(pos as int) =~= start.insert(
            pos as int,
            id,
        ));
    }
    sorted.insert(pos, id);
}

/// Orders `ids` by key; ids with equal keys stay in the order of `ids`.
pub fn sort_by_key(ids: &Vec<usize>, keys: &Vec<usize>) -> (sorted: Vec<usize>)
    requires
        ids_in_range(ids@, keys@),
    ensures
        sorted@ == stable_sort(ids@, keys@),
{
    let mut sorted: Vec<usize> = Vec::new();
    let mut i: usize = 0;
    while i < ids.len()
        invariant
            i <= ids.len(),
            ids_in_range(ids@, keys@),
            ids_in_range(sorted@, keys@),
            sorted@ == stable_sort(ids@.take(i as int), keys@),
        decreases ids.len() - i,
    {
        proof {
            let head = ids@.take(i + 1);
            assert(head.drop_last() =~= ids@.take(i as int));
            assert(head.last() == ids@[i as int]);
        }
        insert_sorted(&mut sorted, keys, ids[i]);
        i += 1;
    }
    assert(ids@.take(ids.len() as int) =~= ids@);
    sorted
}

/// The list back to front.
pub fn reversed(ids: &Vec<usize>) -> (out: Vec<usize>)
    ensures
        out@ == ids@.reverse(),
{
    let mut out: Vec<usize> = Vec::new();
    let mut i: usize = ids.len();
    while i > 0
        invariant
            i <= ids.len(),
            out.len() == ids.len() - i,
            forall|j: int| 0 <= j < out.len() ==> out[j] == ids[ids.len() - 1 - j],
        decreases i,
    {
        i -= 1;
        out.push(ids[i]);
    }
    assert(out@ =~= ids@.reverse());
    out
}

/// The ids `0, 1, .., n - 1`.
pub fn ids_upto(n: usize) -> (ids: Vec<usize>)
    ensures
        ids@ == iota(n as nat),
{
    let mut ids: Vec<usize> = Vec::new();
    let mut i: usize = 0;
    while i < n
        invariant
            i <= n,
            ids.len() == i,
            forall|j: int| 0 <= j < i ==> ids[j] == j,
        decreases n - i,
    {
        ids.push(i);
        i += 1;
    }
    assert(ids@ =~= iota(n as nat));
    ids
}

} // verus!
