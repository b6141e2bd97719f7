//! Stable ordering by keys that are lists of numbers.

use vstd::prelude::*;

verus! {

/// Lists of numbers in the order of a dictionary.
pub open spec fn at_most(a: Seq<int>, b: Seq<int>) -> bool
    decreases a.len(),
{
    if a.len() == 0 {
        true
    } else if b.len() == 0 {
        false
    } else if a[0] != b[0] {
        a[0] < b[0]
    } else {
        at_most(a.skip(1), b.skip(1))
    }
}

pub open spec fn key_of(v: Seq<i128>) -> Seq<int> {
    Seq::new(v.len(), |i: int| v[i] as int)
}

pub open spec fn keys_of(v: Seq<Vec<i128>>) -> Seq<Seq<int>> {
    Seq::new(v.len(), |i: int| key_of(v[i]@))
}

/// Where an entry with this key belongs: behind all that are at most as large.
pub open spec fn place_for(sorted: Seq<int>, keys: Seq<Seq<int>>, key: Seq<int>) -> nat
    decreases sorted.len(),
{
    if sorted.len() == 0 {
        0
    } else if at_most(keys[sorted.last()], key) {
        sorted.len()
    } else {
        place_for(sorted.drop_last(), keys, key)
    }
}

/// The indices of the first `n` keys in ascending order of the keys; equal keys keep
/// their order.
pub open spec fn ranking(keys: Seq<Seq<int>>, n: nat) -> Seq<int>
    decreases n,
{
    if n == 0 {
        seq![]
    } else {
        let before = ranking(keys, (n - 1) as nat);
        before.insert(place_for(before, keys, keys[n - 1]) as int, n - 1)
    }
}

/// The entries in ascending order of their keys; equal keys keep their order.
pub open spec fn arranged<T>(v: Seq<T>, keys: Seq<Seq<int>>) -> Seq<T> {
    let order = ranking(keys, v.len());
    Seq::new(v.len(), |i: int| v[order[i]])
}

/// Every index from 0 on occurs once.
pub open spec fn is_ranking(order: Seq<int>, n: nat) -> bool {
    &&& order.len() == n
    &&& forall|i: int| 0 <= i < n ==> 0 <= #[trigger] order[i] < n
    &&& forall|i: int, j: int| 0 <= i < j < n ==> #[trigger] order[i] != #[trigger] order[j]
}

/// The keys ascend along the indices, and equal keys stand in their first order.
pub open spec fn ascends(order: Seq<int>, keys: Seq<Seq<int>>) -> bool {
    &&& forall|i: int, j: int|
        0 <= i < j < order.len() ==> at_most(keys[#[trigger] order[i]], keys[#[trigger] order[j]])
    &&& forall|i: int, j: int|
        0 <= i < j < order.len() && at_most(keys[order[j]], keys[order[i]])
            ==> #[trigger] order[i] < #[trigger] order[j]
}

proof fn lemma_total(a: Seq<int>, b: Seq<int>)
    ensures
        at_most(a, b) || at_most(b, a),
    decreases a.len(),
{
    if a.len() > 0 && b.len() > 0 && a[0] == b[0] {
        lemma_total(a.skip(1), b.skip(1));
    }
}

proof fn lemma_transitive(a: Seq<int>, b: Seq<int>, c: Seq<int>)
    requires
        at_most(a, b),
        at_most(b, c),
    ensures
        at_most(a, c),
    decreases a.len(),
{
    if a.len() > 0 && a[0] == b[0] && b[0] == c[0] {
        lemma_transitive(a.skip(1), b.skip(1), c.skip(1));
    }
}

/// What stands before the place is at most as large, and what stands behind is larger.
pub proof fn lemma_place_for(sorted: Seq<int>, keys: Seq<Seq<int>>, key: Seq<int>)
    ensures
        place_for(sorted, keys, key) <= sorted.len(),
        place_for(sorted, keys, key) > 0 ==> at_most(
            keys[sorted[place_for(sorted, keys, key) - 1]],
            key,
        ),
        forall|i: int|
            place_for(sorted, keys, key) <= i < sorted.len() ==> !at_most(
                keys[#[trigger] sorted[i]],
                key,
            ),
    decreases sorted.len(),
{
    if sorted.len() > 0 && !at_most(keys[sorted.last()], key) {
        let rest = sorted.drop_last();
        lemma_place_for(rest, keys, key);
        assert forall|i: int| place_for(sorted, keys, key) <= i < sorted.len() implies !at_most(
            keys[#[trigger] sorted[i]],
            key,
        ) by {
            if i < rest.len() {
                assert(rest[i] == sorted[i]);
            }
        }
    }
}

/// Ordering moves entries only: every entry occurs once, the keys ascend, and entries
/// with equal keys keep their order.
pub proof fn law_ranking(keys: Seq<Seq<int>>, n: nat)
    ensures
        is_ranking(ranking(keys, n), n),
        ascends(ranking(keys, n), keys),
    decreases n,
{
    if n > 0 {
        let before = ranking(keys, (n - 1) as nat);
        law_ranking(keys, (n - 1) as nat);
        let key = keys[n - 1];
        lemma_place_for(before, keys, key);
        let p = place_for(before, keys, key) as int;
        let after = ranking(keys, n);
        assert(after == before.insert(p, n - 1));
        assert forall|i: int, j: int| 0 <= i < j < n implies #[trigger] after[i] != #[trigger] after[j]
            && at_most(keys[after[i]], keys[after[j]]) && (at_most(keys[after[j]], keys[after[i]])
            ==> after[i] < after[j]) by {
            let a = if i < p {
                i
            } else {
                i - 1
            };
            let b = if j < p {
                j
            } else {
                j - 1
            };
            if i == p {
                let y = before[b];
                lemma_total(keys[y], key);
            } else if j == p {
                let x = before[a];
                let last = before[p - 1];
                if a < p - 1 {
                    assert(at_most(keys[x], keys[last]));
                    lemma_transitive(keys[x], keys[last], key);
                }
            } else {
                assert(after[i] == before[a] && after[j] == before[b]);
            }
        }
    }
}

fn key_at_most(a: &Vec<i128>, b: &Vec<i128>) -> (r: bool)
    ensures
        r == at_most(key_of(a@), key_of(b@)),
{
    let ghost left = key_of(a@);
    let ghost right = key_of(b@);
    assert(left.skip(0) =~= left);
    assert(right.skip(0) =~= right);
    let mut i: usize = 0;
    while i < a.len() && i < b.len()
        invariant
            i <= a@.len(),
            i <= b@.len(),
            left == key_of(a@),
            right == key_of(b@),
            at_most(left, right) == at_most(left.skip(i as int), right.skip(i as int)),
        decreases a@.len() - i,
    {
        assert(left.skip(i as int)[0] == a@[i as int]);
        assert(right.skip(i as int)[0] == b@[i as int]);
        assert(left.skip(i as int).skip(1) =~= left.skip(i + 1));
        assert(right.skip(i as int).skip(1) =~= right.skip(i + 1));
        if a[i] != b[i] {
            return a[i] < b[i];
        }
        i = i + 1;
    }
    i == a.len()
}

pub open spec fn indices(v: Seq<usize>) -> Seq<int> {
    Seq::new(v.len(), |i: int| v[i] as int)
}

/// The indices of the keys in ascending order; equal keys keep their order.
pub fn ranks(keys: &Vec<Vec<i128>>) -> (r: Vec<usize>)
    ensures
        indices(r@) == ranking(keys_of(keys@), keys@.len()),
        is_ranking(indices(r@), keys@.len()),
{
    let ghost all = keys_of(keys@);
    let mut r: Vec<usize> = Vec::new();
    let mut n: usize = 0;
    while n < keys.len()
        invariant
            n <= keys@.len(),
            all == keys_of(keys@),
            indices(r@) == ranking(all, n as nat),
        decreases keys@.len() - n,
    {
        proof {
            law_ranking(all, n as nat);
        }
        let ghost before = indices(r@);
        let ghost key = all[n as int];
        let mut p: usize = r.len();
        assert(before.take(p as int) =~= before);
        assert(forall|i: int| 0 <= i < r@.len() ==> before[i] == r@[i]);
        let mut found = false;
        while p > 0 && !found
            invariant
                p <= r@.len(),
                n < keys@.len(),
                all == keys_of(keys@),
                key == all[n as int],
                before == indices(r@),
                before == ranking(all, n as nat),
                is_ranking(before, n as nat),
                found ==> place_for(before, all, key) == p,
                !found ==> place_for(before, all, key) == place_for(before.take(p as int), all, key),
            decreases p, (if found { 0int } else { 1int }),
        {
            assert(before.take(p as int).last() == r@[p - 1] as int);
            assert(before.take(p as int).drop_last() =~= before.take(p - 1));
            assert(0 <= before[p - 1] < n);
            if key_at_most(&keys[r[p - 1]], &keys[n]) {
                found = true;
            } else {
                p = p - 1;
            }
        }
        let ghost old_r = r@;
        r.insert(p, n);
        assert(indices(r@) =~= before.insert(p as int, n as int));
        n = n + 1;
    }
    proof {
        law_ranking(all, keys@.len());
    }
    r
}

/// The entries in ascending order of their keys; equal keys keep their order.
pub fn arrange<T: Default>(v: Vec<T>, keys: &Vec<Vec<i128>>) -> (r: Vec<T>)
    requires
        keys@.len() == v@.len(),
    ensures
        r@ == arranged(v@, keys_of(keys@)),
{
    let ghost start = v@;
    let mut v = v;
    let order = ranks(keys);
    let ghost by = ranking(keys_of(keys@), keys@.len());
    let mut r: Vec<T> = Vec::new();
    let mut i: usize = 0;
    while i < order.len()
        invariant
            i <= order@.len() == start.len() == v@.len(),
            by == indices(order@),
            is_ranking(by, start.len()),
            r@.len() == i,
            forall|j: int| 0 <= j < i ==> #[trigger] r@[j] == start[by[j]],
            forall|j: int| i <= j < order@.len() ==> v@[#[trigger] by[j]] == start[by[j]],
        decreases order@.len() - i,
    {
        assert(by[i as int] == order@[i as int]);
        let mut entry = T::default();
        std::mem::swap(&mut entry, &mut v[order[i]]);
        assert(entry == start[by[i as int]]);
        assert forall|j: int| i + 1 <= j < order@.len() implies v@[#[trigger] by[j]] == start[by[j]] by {
            assert(by[i as int] != by[j]);
        }
        r.push(entry);
        i = i + 1;
    }
    assert(r@ =~= arranged(start, keys_of(keys@)));
    r
}

} // verus!
