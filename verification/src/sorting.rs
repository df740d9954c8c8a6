//! Stable insertion sort, stated once over sequences and an ordering,
//! and the facts about it that the callers share.

use vstd::prelude::*;

verus! {

/// Inserts `x` into `s` just before the first element that `le` does not
/// place at or before `x` (after all of them when there is none).
pub open spec fn insert_by<T>(s: Seq<T>, x: T, le: spec_fn(T, T) -> bool) -> Seq<T>
    decreases s.len(),
{
    if s.len() == 0 {
        seq![x]
    } else if le(s[0], x) {
        seq![s[0]] + insert_by(s.drop_first(), x, le)
    } else {
        seq![x] + s
    }
}

/// The stable sort of `s` under `le`: each element in turn is inserted
/// after every earlier element that `le` places at or before it.
pub open spec fn sort_by<T>(s: Seq<T>, le: spec_fn(T, T) -> bool) -> Seq<T>
    decreases s.len(),
{
    if s.len() == 0 {
        s
    } else {
        insert_by(sort_by(s.drop_last(), le), s.last(), le)
    }
}

/// `le` is a total preorder on all values.
pub open spec fn total_preorder<T>(le: spec_fn(T, T) -> bool) -> bool {
    &&& forall|a: T, b: T| #[trigger] le(a, b) || le(b, a)
    &&& forall|a: T, b: T, c: T| #[trigger] le(a, b) && #[trigger] le(b, c) ==> le(a, c)
}

/// Every element of `s` is placed by `le` at or before every later one.
pub open spec fn sorted_by<T>(s: Seq<T>, le: spec_fn(T, T) -> bool) -> bool {
    forall|i: int, j: int| 0 <= i < j < s.len() ==> le(#[trigger] s[i], #[trigger] s[j])
}

/// Inserting at the first index whose element `le` does not place at or
/// before `x` is what `insert_by` does.
pub proof fn lemma_insert_by_at<T>(s: Seq<T>, x: T, le: spec_fn(T, T) -> bool, k: int)
    requires
        0 <= k <= s.len(),
        forall|j: int| 0 <= j < k ==> le(#[trigger] s[j], x),
        k < s.len() ==> !le(s[k], x),
    ensures
        insert_by(s, x, le) == s.insert(k, x),
    decreases s.len(),
{
    if s.len() == 0 {
        assert(s.insert(k, x) =~= seq![x]);
    } else if k == 0 {
        assert(s.insert(0, x) =~= seq![x] + s);
    } else {
        let t = s.drop_first();
        assert forall|j: int| 0 <= j < k - 1 implies le(#[trigger] t[j], x) by {
            assert(t[j] == s[j + 1]);
        }
        lemma_insert_by_at(t, x, le, k - 1);
        assert(s.insert(k, x) =~= seq![s[0]] + t.insert(k - 1, x));
    }
}

/// Inserting keeps every element and adds `x`.
pub proof fn lemma_insert_by_multiset<T>(s: Seq<T>, x: T, le: spec_fn(T, T) -> bool)
    ensures
        insert_by(s, x, le).to_multiset() =~= s.to_multiset().insert(x),
        insert_by(s, x, le).len() == s.len() + 1,
    decreases s.len(),
{
    broadcast use vstd::seq_lib::group_to_multiset_ensures;

    if s.len() == 0 {
        assert(seq![x] =~= Seq::<T>::empty().push(x));
    } else if le(s[0], x) {
        let t = s.drop_first();
        lemma_insert_by_multiset(t, x, le);
        assert(s =~= seq![s[0]] + t);
        vstd::seq_lib::lemma_multiset_commutative(seq![s[0]], insert_by(t, x, le));
        vstd::seq_lib::lemma_multiset_commutative(seq![s[0]], t);
    } else {
        vstd::seq_lib::lemma_multiset_commutative(seq![x], s);
        assert(seq![x] =~= Seq::<T>::empty().push(x));
    }
}

/// Sorting keeps every element, as often as it occurs.
pub proof fn lemma_sort_by_multiset<T>(s: Seq<T>, le: spec_fn(T, T) -> bool)
    ensures
        sort_by(s, le).to_multiset() =~= s.to_multiset(),
        sort_by(s, le).len() == s.len(),
    decreases s.len(),
{
    broadcast use vstd::seq_lib::group_to_multiset_ensures;

    if s.len() > 0 {
        lemma_sort_by_multiset(s.drop_last(), le);
        lemma_insert_by_multiset(sort_by(s.drop_last(), le), s.last(), le);
        assert(s =~= s.drop_last().push(s.last()));
    }
}

/// Inserting into a sorted sequence under a total preorder keeps it sorted.
pub proof fn lemma_insert_by_sorted<T>(s: Seq<T>, x: T, le: spec_fn(T, T) -> bool)
    requires
        total_preorder(le),
        sorted_by(s, le),
    ensures
        sorted_by(insert_by(s, x, le), le),
    decreases s.len(),
{
    if s.len() > 0 {
        if le(s[0], x) {
            let t = s.drop_first();
            assert(sorted_by(t, le)) by {
                assert forall|i: int, j: int| 0 <= i < j < t.len() implies le(
                    #[trigger] t[i],
                    #[trigger] t[j],
                ) by {
                    assert(t[i] == s[i + 1] && t[j] == s[j + 1]);
                }
            }
            lemma_insert_by_sorted(t, x, le);
            lemma_insert_by_multiset(t, x, le);
            let r = insert_by(t, x, le);
            let whole = seq![s[0]] + r;
            assert forall|j: int| 0 <= j < r.len() implies le(s[0], #[trigger] r[j]) by {
                assert(r.to_multiset().count(r[j]) > 0) by {
                    vstd::seq_lib::lemma_seq_contains_after_push(r, r[j], r[j]);
                    r.to_multiset_ensures();
                    assert(r.contains(r[j]));
                }
                assert(t.to_multiset().insert(x).count(r[j]) > 0);
                if r[j] != x {
                    t.to_multiset_ensures();
                    assert(t.contains(r[j]));
                    let k = choose|k: int| 0 <= k < t.len() && t[k] == r[j];
                    assert(s[k + 1] == t[k]);
                }
            }
            assert forall|i: int, j: int| 0 <= i < j < whole.len() implies le(
                #[trigger] whole[i],
                #[trigger] whole[j],
            ) by {
                if i == 0 {
                    assert(whole[j] == r[j - 1]);
                } else {
                    assert(whole[i] == r[i - 1] && whole[j] == r[j - 1]);
                }
            }
        } else {
            let whole = seq![x] + s;
            assert(le(x, s[0]));
            assert forall|i: int, j: int| 0 <= i < j < whole.len() implies le(
                #[trigger] whole[i],
                #[trigger] whole[j],
            ) by {
                if i == 0 {
                    assert(whole[j] == s[j - 1]);
                    if j - 1 > 0 {
                        assert(le(s[0], s[j - 1]));
                    }
                } else {
                    assert(whole[i] == s[i - 1] && whole[j] == s[j - 1]);
                }
            }
        }
    }
}

/// Under a total preorder the sort is sorted.
pub proof fn lemma_sort_by_sorted<T>(s: Seq<T>, le: spec_fn(T, T) -> bool)
    requires
        total_preorder(le),
    ensures
        sorted_by(sort_by(s, le), le),
    decreases s.len(),
{
    if s.len() > 0 {
        lemma_sort_by_sorted(s.drop_last(), le);
        lemma_insert_by_sorted(sort_by(s.drop_last(), le), s.last(), le);
    }
}

/// Orders positions by their key: ascending, or descending.
pub open spec fn key_order(keys: Seq<u64>, descending: bool) -> spec_fn(usize, usize) -> bool {
    |a: usize, b: usize|
        if descending {
            keys[a as int] >= keys[b as int]
        } else {
            keys[a as int] <= keys[b as int]
        }
}

/// Every entry of `list` is below `n`.
pub open spec fn all_below(list: Seq<usize>, n: nat) -> bool {
    forall|k: int| 0 <= k < list.len() ==> #[trigger] list[k] < n
}

fn in_key_order(a: u64, b: u64, descending: bool) -> (r: bool)
    ensures
        r == if descending {
            a >= b
        } else {
            a <= b
        },
{
    if descending {
        a >= b
    } else {
        a <= b
    }
}

/// Stable sort of the positions in `list` by `keys`.
pub fn sort_positions(keys: &Vec<u64>, list: &Vec<usize>, descending: bool) -> (r: Vec<usize>)
    requires
        all_below(list@, keys.len() as nat),
    ensures
        r@ == sort_by(list@, key_order(keys@, descending)),
        all_below(r@, keys.len() as nat),
{
    let ghost le = key_order(keys@, descending);
    let mut r: Vec<usize> = Vec::new();
    let mut i: usize = 0;
    assert(list@.take(0) =~= Seq::<usize>::empty());
    while i < list.len()
        invariant
            all_below(list@, keys.len() as nat),
            le == key_order(keys@, descending),
            i <= list.len(),
            r@ == sort_by(list@.take(i as int), le),
            all_below(r@, keys.len() as nat),
        decreases list.len() - i,
    {
        let x = list[i];
        let kx = keys[x];
        let mut k: usize = 0;
        while k < r.len() && in_key_order(keys[r[k]], kx, descending)
            invariant
                all_below(r@, keys.len() as nat),
                x < keys.len(),
                kx == keys@[x as int],
                le == key_order(keys@, descending),
                k <= r.len(),
                forall|j: int| 0 <= j < k ==> le(#[trigger] r@[j], x),
            decreases r.len() - k,
        {
            k = k + 1;
        }
        proof {
            lemma_insert_by_at(r@, x, le, k as int);
            assert(list@.take(i + 1).drop_last() =~= list@.take(i as int));
        }
        r.insert(k, x);
        i = i + 1;
        assert forall|j: int| 0 <= j < r@.len() implies #[trigger] r@[j] < keys.len() by {
            if j < k {
            } else if j > k {
            }
        }
    }
    assert(list@.take(list.len() as int) =~= list@);
    r
}

/// Ascending order on numbers.
pub open spec fn value_le() -> spec_fn(u64, u64) -> bool {
    |a: u64, b: u64| a <= b
}

/// Stable ascending sort of numbers.
pub fn sort_values(v: &Vec<u64>) -> (r: Vec<u64>)
    ensures
        r@ == sort_by(v@, value_le()),
{
    let ghost le = value_le();
    let mut r: Vec<u64> = Vec::new();
    let mut i: usize = 0;
    assert(v@.take(0) =~= Seq::<u64>::empty());
    while i < v.len()
        invariant
            le == value_le(),
            i <= v.len(),
            r@ == sort_by(v@.take(i as int), le),
        decreases v.len() - i,
    {
        let x = v[i];
        let mut k: usize = 0;
        while k < r.len() && r[k] <= x
            invariant
                le == value_le(),
                k <= r.len(),
                forall|j: int| 0 <= j < k ==> le(#[trigger] r@[j], x),
            decreases r.len() - k,
        {
            k = k + 1;
        }
        proof {
            lemma_insert_by_at(r@, x, le, k as int);
            assert(v@.take(i + 1).drop_last() =~= v@.take(i as int));
        }
        r.insert(k, x);
        i = i + 1;
    }
    assert(v@.take(v.len() as int) =~= v@);
    r
}

/// Every element of the sort is an element of the input, and the sort of a
/// sequence without duplicates has none.
pub proof fn lemma_sort_by_members<T>(s: Seq<T>, le: spec_fn(T, T) -> bool)
    ensures
        forall|k: int| 0 <= k < sort_by(s, le).len() ==> s.contains(#[trigger] sort_by(s, le)[k]),
        s.no_duplicates() ==> sort_by(s, le).no_duplicates(),
{
    broadcast use vstd::seq_lib::group_to_multiset_ensures;

    let r = sort_by(s, le);
    lemma_sort_by_multiset(s, le);
    assert forall|k: int| 0 <= k < r.len() implies s.contains(#[trigger] r[k]) by {
        assert(r.contains(r[k]));
        assert(r.to_multiset().count(r[k]) > 0);
    }
    if s.no_duplicates() {
        s.lemma_multiset_has_no_duplicates();
        r.lemma_multiset_has_no_duplicates_conv();
    }
}

/// Position `a` comes before position `b` by key, ascending, and by
/// position where the keys are equal.
pub open spec fn key_then_position(keys: Seq<u64>, a: usize, b: usize) -> bool {
    keys[a as int] < keys[b as int] || (keys[a as int] == keys[b as int] && a <= b)
}

/// Every position of `s` comes before every later one by key, then by
/// position.
pub open spec fn sorted_stably(s: Seq<usize>, keys: Seq<u64>) -> bool {
    forall|i: int, j: int| 0 <= i < j < s.len() ==> key_then_position(keys, #[trigger] s[i], #[trigger] s[j])
}

proof fn lemma_insert_by_stable(r: Seq<usize>, x: usize, keys: Seq<u64>)
    requires
        sorted_stably(r, keys),
        forall|k: int| 0 <= k < r.len() ==> #[trigger] r[k] < x,
    ensures
        sorted_stably(insert_by(r, x, key_order(keys, false)), keys),
        forall|k: int| 0 <= k < insert_by(r, x, key_order(keys, false)).len() ==>
            #[trigger] insert_by(r, x, key_order(keys, false))[k] == x
                || r.contains(insert_by(r, x, key_order(keys, false))[k]),
    decreases r.len(),
{
    let le = key_order(keys, false);
    let res = insert_by(r, x, le);
    if r.len() == 0 {
        assert(res == seq![x]);
    } else if le(r[0], x) {
        let t = r.drop_first();
        assert forall|i: int, j: int| 0 <= i < j < t.len() implies key_then_position(keys, #[trigger] t[i], #[trigger] t[j]) by {
            assert(t[i] == r[i + 1] && t[j] == r[j + 1]);
        }
        assert forall|k: int| 0 <= k < t.len() implies #[trigger] t[k] < x by {
            assert(t[k] == r[k + 1]);
        }
        lemma_insert_by_stable(t, x, keys);
        let it = insert_by(t, x, le);
        assert(res == seq![r[0]] + it);
        assert forall|k: int| 0 <= k < res.len() implies #[trigger] res[k] == x || r.contains(res[k]) by {
            if k == 0 {
                assert(r[0] == res[0]);
            } else {
                assert(res[k] == it[k - 1]);
                if it[k - 1] != x {
                    let m = choose|m: int| 0 <= m < t.len() && t[m] == it[k - 1];
                    assert(r[m + 1] == t[m]);
                }
            }
        }
        assert forall|i: int, j: int| 0 <= i < j < res.len() implies key_then_position(keys, #[trigger] res[i], #[trigger] res[j]) by {
            if i == 0 {
                assert(res[0] == r[0]);
                assert(res[j] == it[j - 1]);
                if it[j - 1] != x {
                    let m = choose|m: int| 0 <= m < t.len() && t[m] == it[j - 1];
                    assert(r[m + 1] == t[m]);
                } else {
                    assert(r[0] < x);
                }
            } else {
                assert(res[i] == it[i - 1] && res[j] == it[j - 1]);
            }
        }
    } else {
        assert(res == seq![x] + r);
        assert forall|k: int| 0 <= k < res.len() implies #[trigger] res[k] == x || r.contains(res[k]) by {
            if k > 0 {
                assert(res[k] == r[k - 1]);
            }
        }
        assert forall|i: int, j: int| 0 <= i < j < res.len() implies key_then_position(keys, #[trigger] res[i], #[trigger] res[j]) by {
            assert(res[j] == r[j - 1]);
            if i == 0 {
                if j - 1 > 0 {
                    assert(key_then_position(keys, r[0], r[j - 1]));
                }
            } else {
                assert(res[i] == r[i - 1]);
            }
        }
    }
}

/// Sorting positions given in increasing order by key, ascending, orders
/// them by key and, where keys are equal, keeps their order: the sort is
/// stable. It holds no position that was not given.
pub proof fn lemma_sort_by_stable(s: Seq<usize>, keys: Seq<u64>)
    requires
        forall|i: int, j: int| 0 <= i < j < s.len() ==> #[trigger] s[i] < #[trigger] s[j],
    ensures
        sorted_stably(sort_by(s, key_order(keys, false)), keys),
        forall|k: int| 0 <= k < sort_by(s, key_order(keys, false)).len() ==> s.contains(
            #[trigger] sort_by(s, key_order(keys, false))[k],
        ),
    decreases s.len(),
{
    let le = key_order(keys, false);
    if s.len() > 0 {
        let d = s.drop_last();
        assert forall|i: int, j: int| 0 <= i < j < d.len() implies #[trigger] d[i] < #[trigger] d[j] by {
            assert(d[i] == s[i] && d[j] == s[j]);
        }
        lemma_sort_by_stable(d, keys);
        let sd = sort_by(d, le);
        assert forall|k: int| 0 <= k < sd.len() implies #[trigger] sd[k] < s.last() by {
            let m = choose|m: int| 0 <= m < d.len() && d[m] == sd[k];
            assert(s[m] == d[m]);
        }
        lemma_insert_by_stable(sd, s.last(), keys);
        let res = sort_by(s, le);
        assert forall|k: int| 0 <= k < res.len() implies s.contains(#[trigger] res[k]) by {
            if res[k] == s.last() {
                assert(s[s.len() - 1] == s.last());
            } else {
                let m = choose|m: int| 0 <= m < sd.len() && sd[m] == res[k];
                let q = choose|q: int| 0 <= q < d.len() && d[q] == sd[m];
                assert(s[q] == d[q]);
            }
        }
    }
}

/// Ordering positions by key is a total preorder.
pub proof fn lemma_key_order_total(keys: Seq<u64>, descending: bool)
    ensures
        total_preorder(key_order(keys, descending)),
{
}

} // verus!
