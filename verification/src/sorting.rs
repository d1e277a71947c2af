//! What a stable sort by key makes of a sequence, and what picking each
//! item once leaves of it.

use vstd::prelude::*;

verus! {

/// Keys are pairs, compared by the first part and, where that is equal, by
/// the second.
pub open spec fn key_le(a: (int, int), b: (int, int)) -> bool {
    a.0 < b.0 || (a.0 == b.0 && a.1 <= b.1)
}

/// The items come in ascending order of key.
pub open spec fn sorted_by<T>(s: Seq<T>, key: spec_fn(T) -> (int, int)) -> bool {
    forall|i: int, j: int| 0 <= i < j < s.len() ==> key_le(#[trigger] key(s[i]), #[trigger] key(s[j]))
}

/// The number of items whose key is at most `k`.
pub open spec fn upper_rank<T>(s: Seq<T>, k: (int, int), key: spec_fn(T) -> (int, int)) -> int
    decreases s.len(),
{
    if s.len() == 0 {
        0
    } else {
        upper_rank(s.drop_last(), k, key) + if key_le(key(s.last()), k) {
            1int
        } else {
            0int
        }
    }
}

/// The items in ascending order of key, items of equal key in the order in
/// which they came: each item in turn goes behind the items sorted so far
/// whose key is at most its own.
pub open spec fn stable_sorted<T>(s: Seq<T>, key: spec_fn(T) -> (int, int)) -> Seq<T>
    decreases s.len(),
{
    if s.len() == 0 {
        s
    } else {
        let front = stable_sorted(s.drop_last(), key);
        front.insert(upper_rank(front, key(s.last()), key), s.last())
    }
}

/// There are no more items with a key of at most `k` than there are items.
pub proof fn lemma_upper_rank_bounds<T>(s: Seq<T>, k: (int, int), key: spec_fn(T) -> (int, int))
    ensures
        0 <= upper_rank(s, k, key) <= s.len(),
    decreases s.len(),
{
    if s.len() > 0 {
        lemma_upper_rank_bounds(s.drop_last(), k, key);
    }
}

/// Where every key is at most `k`, every item counts.
pub proof fn lemma_upper_rank_all<T>(s: Seq<T>, k: (int, int), key: spec_fn(T) -> (int, int))
    requires
        forall|i: int| 0 <= i < s.len() ==> key_le(#[trigger] key(s[i]), k),
    ensures
        upper_rank(s, k, key) == s.len(),
    decreases s.len(),
{
    if s.len() > 0 {
        lemma_upper_rank_all(s.drop_last(), k, key);
    }
}

/// Among sorted items, those whose key is at most `k` come first.
pub proof fn lemma_upper_rank_sorted<T>(s: Seq<T>, k: (int, int), key: spec_fn(T) -> (int, int))
    requires
        sorted_by(s, key),
    ensures
        0 <= upper_rank(s, k, key) <= s.len(),
        forall|i: int| 0 <= i < upper_rank(s, k, key) ==> key_le(#[trigger] key(s[i]), k),
        forall|i: int| upper_rank(s, k, key) <= i < s.len() ==> !key_le(#[trigger] key(s[i]), k),
    decreases s.len(),
{
    if s.len() > 0 {
        let front = s.drop_last();
        let n = s.len() - 1;
        assert(sorted_by(front, key)) by {
            assert forall|i: int, j: int| 0 <= i < j < front.len() implies key_le(
                #[trigger] key(front[i]),
                #[trigger] key(front[j]),
            ) by {
                assert(front[i] == s[i]);
                assert(front[j] == s[j]);
            }
        }
        lemma_upper_rank_sorted(front, k, key);
        if key_le(key(s.last()), k) {
            assert forall|i: int| 0 <= i < front.len() implies key_le(
                #[trigger] key(front[i]),
                k,
            ) by {
                assert(front[i] == s[i]);
                assert(key_le(key(s[i]), key(s[n])));
            }
            lemma_upper_rank_all(front, k, key);
            assert forall|i: int| 0 <= i < upper_rank(s, k, key) implies key_le(
                #[trigger] key(s[i]),
                k,
            ) by {
                if i < n {
                    assert(front[i] == s[i]);
                }
            }
        } else {
            assert forall|i: int| 0 <= i < upper_rank(s, k, key) implies key_le(
                #[trigger] key(s[i]),
                k,
            ) by {
                assert(front[i] == s[i]);
            }
            assert forall|i: int| upper_rank(s, k, key) <= i < s.len() implies !key_le(
                #[trigger] key(s[i]),
                k,
            ) by {
                if i < n {
                    assert(front[i] == s[i]);
                }
            }
        }
    }
}

/// The sorted sequence holds the same items, as often, in ascending order of key.
pub proof fn lemma_stable_sorted<T>(s: Seq<T>, key: spec_fn(T) -> (int, int))
    ensures
        stable_sorted(s, key).len() == s.len(),
        stable_sorted(s, key).to_multiset() == s.to_multiset(),
        sorted_by(stable_sorted(s, key), key),
    decreases s.len(),
{
    broadcast use vstd::seq_lib::to_multiset_build, vstd::seq_lib::to_multiset_insert;

    if s.len() > 0 {
        let front = stable_sorted(s.drop_last(), key);
        let x = s.last();
        let place = upper_rank(front, key(x), key);
        lemma_stable_sorted(s.drop_last(), key);
        lemma_upper_rank_sorted(front, key(x), key);
        let all = front.insert(place, x);
        assert(s.drop_last().push(x) =~= s);
        assert(all.to_multiset() == front.to_multiset().insert(x));
        assert(s.drop_last().push(x).to_multiset() =~= s.drop_last().to_multiset().insert(x));
        assert forall|i: int, j: int| 0 <= i < j < all.len() implies key_le(
            #[trigger] key(all[i]),
            #[trigger] key(all[j]),
        ) by {
            if i < place {
                assert(all[i] == front[i]);
            } else if i > place {
                assert(all[i] == front[i - 1]);
            }
            if j < place {
                assert(all[j] == front[j]);
            } else if j > place {
                assert(all[j] == front[j - 1]);
            }
        }
    }
}

/// Each item of the sorted sequence is an item of the sequence, and each
/// item of the sequence is one of the sorted sequence.
pub proof fn lemma_stable_sorted_members<T>(s: Seq<T>, key: spec_fn(T) -> (int, int))
    ensures
        forall|i: int|
            0 <= i < s.len() ==> stable_sorted(s, key).contains(#[trigger] s[i]),
        forall|i: int|
            0 <= i < stable_sorted(s, key).len() ==> s.contains(
                #[trigger] stable_sorted(s, key)[i],
            ),
{
    broadcast use vstd::seq_lib::to_multiset_contains;

    lemma_stable_sorted(s, key);
    let sorted = stable_sorted(s, key);
    assert forall|i: int| 0 <= i < s.len() implies sorted.contains(#[trigger] s[i]) by {
        assert(s.contains(s[i]));
        assert(s.to_multiset().count(s[i]) > 0);
        assert(sorted.to_multiset().count(s[i]) > 0);
    }
    assert forall|i: int| 0 <= i < sorted.len() implies s.contains(#[trigger] sorted[i]) by {
        assert(sorted.contains(sorted[i]));
        assert(sorted.to_multiset().count(sorted[i]) > 0);
        assert(s.to_multiset().count(sorted[i]) > 0);
    }
}

/// What holds of every two items of the sequence holds of every two items
/// of the sorted sequence.
pub proof fn lemma_stable_sorted_pairwise<T>(
    s: Seq<T>,
    key: spec_fn(T) -> (int, int),
    rel: spec_fn(T, T) -> bool,
)
    requires
        forall|i: int, j: int| 0 <= i < s.len() && 0 <= j < s.len() && i != j ==> #[trigger] rel(s[i], s[j]),
    ensures
        forall|i: int, j: int|
            0 <= i < s.len() && 0 <= j < s.len() && i != j ==> #[trigger] rel(
                stable_sorted(s, key)[i],
                stable_sorted(s, key)[j],
            ),
    decreases s.len(),
{
    if s.len() > 0 {
        let rest = s.drop_last();
        let front = stable_sorted(rest, key);
        let x = s.last();
        let place = upper_rank(front, key(x), key);
        let n = s.len() - 1;
        assert forall|i: int, j: int|
            0 <= i < rest.len() && 0 <= j < rest.len() && i != j implies #[trigger] rel(
            rest[i],
            rest[j],
        ) by {
            assert(rest[i] == s[i] && rest[j] == s[j]);
        }
        lemma_stable_sorted_pairwise(rest, key, rel);
        lemma_stable_sorted(rest, key);
        lemma_stable_sorted_members(rest, key);
        lemma_upper_rank_bounds(front, key(x), key);
        let all = front.insert(place, x);
        assert forall|i: int, j: int|
            0 <= i < s.len() && 0 <= j < s.len() && i != j implies #[trigger] rel(
            all[i],
            all[j],
        ) by {
            let fi = if i < place {
                i
            } else {
                i - 1
            };
            let fj = if j < place {
                j
            } else {
                j - 1
            };
            if i != place && j != place {
                assert(all[i] == front[fi] && all[j] == front[fj]);
                assert(rel(front[fi], front[fj]));
            } else if i == place {
                assert(all[j] == front[fj]);
                assert(rest.contains(front[fj]));
                let k = choose|k: int| 0 <= k < rest.len() && rest[k] == front[fj];
                assert(rest[k] == s[k]);
                assert(rel(s[n], s[k]));
            } else {
                assert(all[i] == front[fi]);
                assert(rest.contains(front[fi]));
                let k = choose|k: int| 0 <= k < rest.len() && rest[k] == front[fi];
                assert(rest[k] == s[k]);
                assert(rel(s[k], s[n]));
            }
        }
    }
}

/// The places name each item once: no place twice, and every place of an item.
pub open spec fn rearranges(places: Seq<int>, count: int) -> bool {
    &&& places.no_duplicates()
    &&& forall|i: int| 0 <= i < places.len() ==> 0 <= #[trigger] places[i] < count
    &&& forall|place: int| 0 <= place < count ==> places.contains(place)
}

/// The items at the given places, in the order of the places.
pub open spec fn picked<T>(items: Seq<T>, places: Seq<int>) -> Seq<T> {
    Seq::new(places.len(), |i: int| items[places[i]])
}

/// Places that name each of `count` items once are `count` places.
pub proof fn lemma_rearranges_len(places: Seq<int>, count: int)
    requires
        0 <= count,
        rearranges(places, count),
    ensures
        places.len() == count,
{
    places.unique_seq_to_set();
    vstd::set_lib::lemma_int_range(0, count);
    assert(places.to_set() =~= vstd::set_lib::set_int_range(0, count)) by {
        assert forall|place: int| places.to_set().contains(place) <==> 0 <= place < count by {
            if places.to_set().contains(place) {
                let i = choose|i: int| 0 <= i < places.len() && places[i] == place;
                assert(0 <= places[i] < count);
            }
            if 0 <= place < count {
                assert(places.contains(place));
            }
        }
    }
}

/// Items that are picked each once are the same items, as often.
pub proof fn lemma_picked_multiset<T>(items: Seq<T>, places: Seq<int>)
    requires
        rearranges(places, items.len() as int),
    ensures
        picked(items, places).len() == items.len(),
        picked(items, places).to_multiset() == items.to_multiset(),
    decreases items.len(),
{
    broadcast use vstd::seq_lib::to_multiset_build, vstd::seq_lib::to_multiset_remove;
    broadcast use vstd::multiset::group_multiset_axioms;

    let n = items.len() as int;
    lemma_rearranges_len(places, n);
    let all = picked(items, places);
    if n == 0 {
        assert(all =~= items);
    } else {
        let front = items.drop_last();
        assert(places.contains(n - 1));
        let at = choose|at: int| 0 <= at < places.len() && places[at] == n - 1;
        let others = places.remove(at);
        assert(rearranges(others, n - 1)) by {
            assert forall|i: int, j: int|
                0 <= i < others.len() && 0 <= j < others.len() && i != j implies others[i]
                != others[j] by {
                let a = if i < at {
                    i
                } else {
                    i + 1
                };
                let b = if j < at {
                    j
                } else {
                    j + 1
                };
                assert(others[i] == places[a] && others[j] == places[b]);
            }
            assert forall|i: int| 0 <= i < others.len() implies 0 <= #[trigger] others[i] < n
                - 1 by {
                let a = if i < at {
                    i
                } else {
                    i + 1
                };
                assert(others[i] == places[a]);
                assert(0 <= places[a] < n);
            }
            assert forall|place: int| 0 <= place < n - 1 implies others.contains(place) by {
                assert(places.contains(place));
                let a = choose|a: int| 0 <= a < places.len() && places[a] == place;
                let i = if a < at {
                    a
                } else {
                    a - 1
                };
                assert(others[i] == place);
            }
        }
        lemma_picked_multiset(front, others);
        assert(picked(front, others) =~= all.remove(at)) by {
            assert forall|i: int| 0 <= i < others.len() implies picked(front, others)[i]
                == all.remove(at)[i] by {
                let a = if i < at {
                    i
                } else {
                    i + 1
                };
                assert(others[i] == places[a]);
                assert(0 <= others[i] < n - 1);
            }
        }
        assert(all[at] == items.last());
        assert(all.remove(at).to_multiset() == all.to_multiset().remove(all[at]));
        assert(front.push(items.last()) =~= items);
        assert(front.push(items.last()).to_multiset() =~= front.to_multiset().insert(
            items.last(),
        ));
        assert(all.to_multiset().count(all[at]) > 0) by {
            broadcast use vstd::seq_lib::to_multiset_contains;

            assert(all.contains(all[at]));
        }
        assert(all.to_multiset() =~= all.to_multiset().remove(all[at]).insert(all[at]));
    }
}

/// No two items have the same key.
pub open spec fn distinct_keys<T>(s: Seq<T>, key: spec_fn(T) -> (int, int)) -> bool {
    forall|i: int, j: int|
        0 <= i < s.len() && 0 <= j < s.len() && i != j ==> #[trigger] key(s[i]) != #[trigger] key(
            s[j],
        )
}

/// Two sorted sequences of the same items, no two of which have the same
/// key, are the same sequence.
pub proof fn lemma_sorted_same<T>(x: Seq<T>, y: Seq<T>, key: spec_fn(T) -> (int, int))
    requires
        sorted_by(x, key),
        sorted_by(y, key),
        distinct_keys(x, key),
        x.to_multiset() == y.to_multiset(),
    ensures
        x == y,
    decreases x.len(),
{
    broadcast use vstd::seq_lib::to_multiset_len, vstd::seq_lib::to_multiset_contains;
    broadcast use vstd::seq_lib::to_multiset_remove;
    broadcast use vstd::multiset::group_multiset_axioms;

    assert(x.len() == y.len()) by {
        vstd::seq_lib::to_multiset_len(x);
        vstd::seq_lib::to_multiset_len(y);
    }
    if x.len() == 0 {
        assert(x =~= y);
    } else {
        let n = x.len() - 1;
        let xl = x[n];
        let yl = y[n];
        assert(x.contains(xl));
        assert(y.to_multiset().count(xl) > 0);
        assert(y.contains(xl));
        let p = choose|p: int| 0 <= p < y.len() && y[p] == xl;
        assert(y.contains(yl));
        assert(x.to_multiset().count(yl) > 0);
        assert(x.contains(yl));
        let q = choose|q: int| 0 <= q < x.len() && x[q] == yl;
        if p < n {
            assert(key_le(key(y[p]), key(y[n])));
        }
        if q < n {
            assert(key_le(key(x[q]), key(x[n])));
            assert(key(x[q]) != key(x[n]));
        }
        assert(q == n);
        assert(xl == yl);
        let xf = x.drop_last();
        let yf = y.drop_last();
        assert(x.remove(n) =~= xf);
        assert(y.remove(n) =~= yf);
        assert(xf.to_multiset() == yf.to_multiset());
        assert(sorted_by(xf, key) && distinct_keys(xf, key)) by {
            assert forall|i: int, j: int| 0 <= i < j < xf.len() implies key_le(
                #[trigger] key(xf[i]),
                #[trigger] key(xf[j]),
            ) by {
                assert(xf[i] == x[i] && xf[j] == x[j]);
            }
            assert forall|i: int, j: int|
                0 <= i < xf.len() && 0 <= j < xf.len() && i != j implies #[trigger] key(xf[i])
                != #[trigger] key(xf[j]) by {
                assert(xf[i] == x[i] && xf[j] == x[j]);
            }
        }
        assert(sorted_by(yf, key)) by {
            assert forall|i: int, j: int| 0 <= i < j < yf.len() implies key_le(
                #[trigger] key(yf[i]),
                #[trigger] key(yf[j]),
            ) by {
                assert(yf[i] == y[i] && yf[j] == y[j]);
            }
        }
        lemma_sorted_same(xf, yf, key);
        assert(x =~= xf.push(xl));
        assert(y =~= yf.push(yl));
    }
}

/// Where no two items have the same key, the order in which they come
/// does not matter to the order into which they are sorted.
pub proof fn lemma_stable_sorted_order_free<T>(a: Seq<T>, b: Seq<T>, key: spec_fn(T) -> (int, int))
    requires
        a.to_multiset() == b.to_multiset(),
        distinct_keys(a, key),
    ensures
        stable_sorted(a, key) == stable_sorted(b, key),
{
    let differ = |x: T, y: T| key(x) != key(y);
    assert forall|i: int, j: int|
        0 <= i < a.len() && 0 <= j < a.len() && i != j implies #[trigger] differ(a[i], a[j]) by {
        assert(key(a[i]) != key(a[j]));
    }
    lemma_stable_sorted_pairwise(a, key, differ);
    lemma_stable_sorted(a, key);
    lemma_stable_sorted(b, key);
    let sa = stable_sorted(a, key);
    assert(distinct_keys(sa, key)) by {
        assert forall|i: int, j: int|
            0 <= i < sa.len() && 0 <= j < sa.len() && i != j implies #[trigger] key(sa[i])
            != #[trigger] key(sa[j]) by {
            assert(differ(sa[i], sa[j]));
        }
    }
    lemma_sorted_same(sa, stable_sorted(b, key), key);
}

} // verus!
