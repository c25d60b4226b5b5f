//! Counting in sequences: how often an item occurs, sums over the distinct
//! items, and how each changes when an item is appended or taken out.

use vstd::prelude::*;

verus! {

/// How often `x` occurs in `s`.
pub open spec fn count<A>(s: Seq<A>, x: A) -> nat
    decreases s.len(),
{
    if s.len() == 0 {
        0
    } else {
        count(s.drop_last(), x) + if s.last() == x {
            1nat
        } else {
            0nat
        }
    }
}

/// The sum of `f` over the distinct items of `s`: each item counts once,
/// however often it occurs.
pub open spec fn distinct_sum<A>(s: Seq<A>, f: spec_fn(A) -> nat) -> nat
    decreases s.len(),
{
    if s.len() == 0 {
        0
    } else {
        distinct_sum(s.drop_last(), f) + if count(s.drop_last(), s.last()) == 0 {
            f(s.last())
        } else {
            0nat
        }
    }
}

/// The number of distinct items of `s`.
pub open spec fn distinct<A>(s: Seq<A>) -> nat {
    distinct_sum(s, |x: A| 1nat)
}

/// The sum of `f` over `s`, each item as often as it occurs.
pub open spec fn sum<A>(s: Seq<A>, f: spec_fn(A) -> nat) -> nat
    decreases s.len(),
{
    if s.len() == 0 {
        0
    } else {
        sum(s.drop_last(), f) + f(s.last())
    }
}

/// The index of the first occurrence of `x` in `s`; the length of `s` where
/// there is none.
pub open spec fn first_index<A>(s: Seq<A>, x: A) -> int
    decreases s.len(),
{
    if s.len() == 0 {
        0
    } else if s.first() == x {
        0
    } else {
        1 + first_index(s.drop_first(), x)
    }
}

/// The table of the counts of `s`: an entry for each item that occurs, with
/// the number of its occurrences.
pub open spec fn count_map<A>(s: Seq<A>) -> Map<A, usize> {
    Map::new(|x: A| count(s, x) > 0, |x: A| count(s, x) as usize)
}

/// Appending an item raises its count by one and no other.
pub proof fn lemma_count_push<A>(s: Seq<A>, x: A, y: A)
    ensures
        count(s.push(x), y) == count(s, y) + if x == y {
            1nat
        } else {
            0nat
        },
{
    assert(s.push(x).drop_last() =~= s);
}

/// No item occurs more often than the sequence is long.
pub proof fn lemma_count_le_len<A>(s: Seq<A>, x: A)
    ensures
        count(s, x) <= s.len(),
    decreases s.len(),
{
    if s.len() > 0 {
        lemma_count_le_len(s.drop_last(), x);
    }
}

/// An item occurs in a sequence just when its count there is positive.
pub proof fn lemma_count_contains<A>(s: Seq<A>, x: A)
    ensures
        s.contains(x) <==> count(s, x) > 0,
    decreases s.len(),
{
    if s.len() > 0 {
        lemma_count_contains(s.drop_last(), x);
        if s.contains(x) {
            let i = choose|i: int| 0 <= i < s.len() && s[i] == x;
            if i < s.len() - 1 {
                assert(s.drop_last()[i] == x);
            }
        }
        if count(s, x) > 0 && s.last() != x {
            let i = choose|i: int| 0 <= i < s.drop_last().len() && s.drop_last()[i] == x;
            assert(s[i] == x);
        }
    }
}

/// Taking out an item lowers its count by one and no other.
pub proof fn lemma_count_remove<A>(s: Seq<A>, k: int, y: A)
    requires
        0 <= k < s.len(),
    ensures
        count(s.remove(k), y) == count(s, y) - if s[k] == y {
            1int
        } else {
            0int
        },
    decreases s.len(),
{
    if k == s.len() - 1 {
        assert(s.remove(k) =~= s.drop_last());
    } else {
        lemma_count_remove(s.drop_last(), k, y);
        assert(s.remove(k).drop_last() =~= s.drop_last().remove(k));
        assert(s.remove(k).last() == s.last());
    }
}

/// An item occurs in two sequences on end as often as in both together.
pub proof fn lemma_count_concat<A>(a: Seq<A>, b: Seq<A>, y: A)
    ensures
        count(a + b, y) == count(a, y) + count(b, y),
    decreases b.len(),
{
    if b.len() == 0 {
        assert(a + b =~= a);
    } else {
        lemma_count_concat(a, b.drop_last(), y);
        assert((a + b).drop_last() =~= a + b.drop_last());
    }
}

/// The first occurrence of an item that occurs is an occurrence, and none
/// stands before it.
pub proof fn lemma_first_index<A>(s: Seq<A>, x: A)
    ensures
        0 <= first_index(s, x) <= s.len(),
        first_index(s, x) < s.len() ==> s[first_index(s, x)] == x,
        forall|i: int| 0 <= i < first_index(s, x) ==> s[i] != x,
        s.contains(x) ==> first_index(s, x) < s.len(),
    decreases s.len(),
{
    if s.len() > 0 && s.first() != x {
        lemma_first_index(s.drop_first(), x);
        let k = first_index(s.drop_first(), x);
        assert forall|i: int| 0 <= i < 1 + k implies s[i] != x by {
            if i > 0 {
                assert(s.drop_first()[i - 1] != x);
            }
        }
        if s.contains(x) {
            let i = choose|i: int| 0 <= i < s.len() && s[i] == x;
            assert(s.drop_first()[i - 1] == x);
        }
    }
}

/// Appending an item raises the sum over the distinct items by what the
/// item contributes, if it is the first of its kind.
pub proof fn lemma_distinct_sum_push<A>(s: Seq<A>, f: spec_fn(A) -> nat, x: A)
    ensures
        distinct_sum(s.push(x), f) == distinct_sum(s, f) + if count(s, x) == 0 {
            f(x)
        } else {
            0nat
        },
{
    assert(s.push(x).drop_last() =~= s);
}

/// Taking out an occurrence of an item lowers the sum over the distinct items
/// by what the item contributes, if it was the last of its kind.
pub proof fn lemma_distinct_sum_remove<A>(s: Seq<A>, f: spec_fn(A) -> nat, k: int)
    requires
        0 <= k < s.len(),
    ensures
        distinct_sum(s.remove(k), f) == distinct_sum(s, f) - if count(s, s[k]) == 1 {
            f(s[k]) as int
        } else {
            0int
        },
    decreases s.len(),
{
    let t = s.drop_last();
    let x = s.last();
    if k == s.len() - 1 {
        assert(s.remove(k) =~= t);
    } else {
        lemma_distinct_sum_remove(t, f, k);
        assert(s.remove(k).drop_last() =~= t.remove(k));
        assert(s.remove(k).last() == x);
        lemma_count_remove(t, k, x);
        lemma_count_contains(t, t[k]);
        assert(t.contains(t[k]));
    }
}

/// The sum over the distinct items is at most the sum over all of them.
pub proof fn lemma_distinct_sum_le_sum<A>(s: Seq<A>, f: spec_fn(A) -> nat)
    ensures
        distinct_sum(s, f) <= sum(s, f),
    decreases s.len(),
{
    if s.len() > 0 {
        lemma_distinct_sum_le_sum(s.drop_last(), f);
    }
}

/// Taking out an item lowers the sum by what the item contributes.
pub proof fn lemma_sum_remove<A>(s: Seq<A>, f: spec_fn(A) -> nat, k: int)
    requires
        0 <= k < s.len(),
    ensures
        sum(s.remove(k), f) == sum(s, f) - f(s[k]),
    decreases s.len(),
{
    if k == s.len() - 1 {
        assert(s.remove(k) =~= s.drop_last());
    } else {
        lemma_sum_remove(s.drop_last(), f, k);
        assert(s.remove(k).drop_last() =~= s.drop_last().remove(k));
        assert(s.remove(k).last() == s.last());
    }
}

/// The number of distinct items is at most the number of items.
pub proof fn lemma_distinct_le_len<A>(s: Seq<A>)
    ensures
        distinct(s) <= s.len(),
    decreases s.len(),
{
    if s.len() > 0 {
        lemma_distinct_le_len(s.drop_last());
    }
}

/// The table of counts has as many entries as the sequence has distinct
/// items.
pub proof fn lemma_count_map_dom<A>(s: Seq<A>)
    ensures
        count_map(s).dom().finite(),
        count_map(s).dom().len() == distinct(s),
    decreases s.len(),
{
    if s.len() == 0 {
        assert(count_map(s).dom() =~= Set::<A>::empty());
    } else {
        let t = s.drop_last();
        let x = s.last();
        lemma_count_map_dom(t);
        assert(t.push(x) =~= s);
        assert forall|y: A| count(s, y) > 0 <==> (count(t, y) > 0 || y == x) by {
            lemma_count_push(t, x, y);
        }
        assert(count_map(s).dom() =~= count_map(t).dom().insert(x));
    }
}

/// Appending an item raises its entry in the table of counts by one, or
/// gives it the entry one.
pub proof fn lemma_count_map_push<A>(s: Seq<A>, x: A)
    requires
        s.len() < usize::MAX,
    ensures
        count_map(s.push(x)) == count_map(s).insert(x, (count(s, x) + 1) as usize),
        count_map(s).contains_key(x) <==> count(s, x) > 0,
        count_map(s).contains_key(x) ==> count_map(s)[x] == count(s, x),
        count(s, x) + 1 <= usize::MAX,
{
    lemma_count_le_len(s, x);
    assert forall|y: A| #[trigger] count(s.push(x), y) == count(s, y) + if x == y {
        1nat
    } else {
        0nat
    } by {
        lemma_count_push(s, x, y);
    }
    assert(count_map(s.push(x)) =~= count_map(s).insert(x, (count(s, x) + 1) as usize));
}

/// Taking out an occurrence of an item lowers its entry in the table of
/// counts by one, or drops the entry where it was the last of its kind.
pub proof fn lemma_count_map_remove<A>(s: Seq<A>, k: int)
    requires
        0 <= k < s.len(),
        s.len() <= usize::MAX,
    ensures
        count(s, s[k]) >= 1,
        count_map(s).contains_key(s[k]),
        count_map(s)[s[k]] == count(s, s[k]),
        count_map(s.remove(k)) == if count(s, s[k]) == 1 {
            count_map(s).remove(s[k])
        } else {
            count_map(s).insert(s[k], (count(s, s[k]) - 1) as usize)
        },
{
    let x = s[k];
    lemma_count_contains(s, x);
    lemma_count_le_len(s, x);
    assert forall|y: A| #[trigger] count(s.remove(k), y) == count(s, y) - if x == y {
        1int
    } else {
        0int
    } by {
        lemma_count_remove(s, k, y);
    }
    if count(s, x) == 1 {
        assert(count_map(s.remove(k)) =~= count_map(s).remove(x));
    } else {
        assert(count_map(s.remove(k)) =~= count_map(s).insert(x, (count(s, x) - 1) as usize));
    }
}

/// The greatest value of `f` on the items of `s`; 0 where `s` is empty.
pub open spec fn greatest<A>(s: Seq<A>, f: spec_fn(A) -> nat) -> nat
    decreases s.len(),
{
    if s.len() == 0 {
        0
    } else {
        let before = greatest(s.drop_last(), f);
        if f(s.last()) > before {
            f(s.last())
        } else {
            before
        }
    }
}

/// Whether `m` bounds `f` on `s` and is reached there; on an empty sequence,
/// whether it is 0.
pub open spec fn is_greatest<A>(s: Seq<A>, f: spec_fn(A) -> nat, m: nat) -> bool {
    &&& forall|i: int| 0 <= i < s.len() ==> f(#[trigger] s[i]) <= m
    &&& s.len() == 0 ==> m == 0
    &&& s.len() > 0 ==> exists|i: int| 0 <= i < s.len() && f(#[trigger] s[i]) == m
}

/// The greatest value bounds all values and is one of them.
pub proof fn lemma_greatest<A>(s: Seq<A>, f: spec_fn(A) -> nat)
    ensures
        is_greatest(s, f, greatest(s, f)),
    decreases s.len(),
{
    if s.len() > 0 {
        let t = s.drop_last();
        lemma_greatest(t, f);
        assert forall|i: int| 0 <= i < s.len() implies f(#[trigger] s[i]) <= greatest(s, f) by {
            if i < s.len() - 1 {
                assert(t[i] == s[i]);
            }
        }
        if f(s.last()) > greatest(t, f) || t.len() == 0 {
            assert(f(s[s.len() - 1]) == greatest(s, f));
        } else {
            let i = choose|i: int| 0 <= i < t.len() && f(#[trigger] t[i]) == greatest(t, f);
            assert(f(s[i]) == greatest(s, f));
        }
    }
}

/// Only one number is the greatest value of `f` on `s`.
pub proof fn lemma_greatest_unique<A>(s: Seq<A>, f: spec_fn(A) -> nat, m: nat)
    requires
        is_greatest(s, f, m),
    ensures
        m == greatest(s, f),
{
    lemma_greatest(s, f);
}

/// Appending an item raises the greatest value to that of the item, if
/// that is greater.
pub proof fn lemma_greatest_push<A>(s: Seq<A>, f: spec_fn(A) -> nat, x: A)
    ensures
        greatest(s.push(x), f) == if f(x) > greatest(s, f) {
            f(x)
        } else {
            greatest(s, f)
        },
{
    assert(s.push(x).drop_last() =~= s);
}

/// Whether `s` and `t` hold the same items, each as often in the one as in
/// the other, in whatever order.
pub open spec fn same_items<A>(s: Seq<A>, t: Seq<A>) -> bool {
    forall|x: A| #![trigger count(s, x)] #![trigger count(t, x)] count(s, x) == count(t, x)
}

/// The greatest value of a sequence is that of the sequence without one
/// item, or the value of that item, whichever is greater.
pub proof fn lemma_greatest_remove<A>(s: Seq<A>, f: spec_fn(A) -> nat, k: int)
    requires
        0 <= k < s.len(),
    ensures
        greatest(s, f) == if f(s[k]) > greatest(s.remove(k), f) {
            f(s[k])
        } else {
            greatest(s.remove(k), f)
        },
    decreases s.len(),
{
    if k == s.len() - 1 {
        assert(s.remove(k) =~= s.drop_last());
    } else {
        lemma_greatest_remove(s.drop_last(), f, k);
        assert(s.remove(k).drop_last() =~= s.drop_last().remove(k));
        assert(s.remove(k).last() == s.last());
    }
}

/// A sequence without its last item and another without an occurrence of
/// that item hold the same items, where the two sequences did.
pub proof fn lemma_same_items_step<A>(s: Seq<A>, t: Seq<A>, k: int)
    requires
        same_items(s, t),
        s.len() > 0,
        0 <= k < t.len(),
        t[k] == s.last(),
    ensures
        same_items(s.drop_last(), t.remove(k)),
{
    assert forall|x: A|
        #![trigger count(s.drop_last(), x)]
        #![trigger count(t.remove(k), x)]
        count(s.drop_last(), x) == count(t.remove(k), x) by {
        lemma_count_remove(t, k, x);
        assert(count(s, x) == count(t, x));
    }
}

/// What is counted or summed over a sequence depends on its items alone, not
/// on their order: two sequences that hold the same items have the same
/// length, table of counts, sums and greatest value.
pub proof fn lemma_same_items_aggregates<A>(s: Seq<A>, t: Seq<A>, f: spec_fn(A) -> nat)
    requires
        same_items(s, t),
    ensures
        s.len() == t.len(),
        count_map(s) == count_map(t),
        sum(s, f) == sum(t, f),
        distinct_sum(s, f) == distinct_sum(t, f),
        greatest(s, f) == greatest(t, f),
    decreases s.len(),
{
    assert(count_map(s) =~= count_map(t)) by {
        assert forall|x: A| count(s, x) == count(t, x) by {}
    }
    if s.len() == 0 {
        if t.len() > 0 {
            lemma_count_contains(t, t[0]);
            assert(t.contains(t[0]));
            assert(count(s, t[0]) == count(t, t[0]));
        }
    } else {
        let x = s.last();
        assert(count(s, x) == count(t, x));
        lemma_count_contains(t, x);
        let k = choose|k: int| 0 <= k < t.len() && t[k] == x;
        lemma_same_items_step(s, t, k);
        lemma_same_items_aggregates(s.drop_last(), t.remove(k), f);
        lemma_sum_remove(t, f, k);
        lemma_distinct_sum_remove(t, f, k);
        lemma_greatest_remove(t, f, k);
        assert(count(s.drop_last(), x) == count(t.remove(k), x));
        lemma_count_remove(t, k, x);
    }
}

/// The items of the sequences of `s` without one of them are those of all,
/// less those of the one.
pub proof fn lemma_count_flatten_remove<A>(s: Seq<Seq<A>>, k: int, x: A)
    requires
        0 <= k < s.len(),
    ensures
        count(s.remove(k).flatten(), x) == count(s.flatten(), x) - count(s[k], x),
{
    let front = s.take(k);
    let back = s.skip(k + 1);
    assert(s =~= front.push(s[k]) + back);
    assert(s.remove(k) =~= front + back);
    vstd::seq_lib::lemma_flatten_concat(front.push(s[k]), back);
    vstd::seq_lib::lemma_flatten_concat(front, back);
    front.lemma_flatten_push(s[k]);
    lemma_count_concat(front.flatten() + s[k], back.flatten(), x);
    lemma_count_concat(front.flatten(), s[k], x);
    lemma_count_concat(front.flatten(), back.flatten(), x);
}

/// Two sequences of sequences that hold the same sequences hold, all in
/// all, the same items.
pub proof fn lemma_same_items_flatten<A>(s: Seq<Seq<A>>, t: Seq<Seq<A>>)
    requires
        same_items(s, t),
    ensures
        same_items(s.flatten(), t.flatten()),
    decreases s.len(),
{
    lemma_same_items_aggregates(s, t, |x: Seq<A>| 0nat);
    if s.len() == 0 {
        assert(s.flatten() =~= t.flatten());
    } else {
        let q = s.last();
        assert(count(s, q) == count(t, q));
        lemma_count_contains(t, q);
        let k = choose|k: int| 0 <= k < t.len() && t[k] == q;
        lemma_same_items_step(s, t, k);
        lemma_same_items_flatten(s.drop_last(), t.remove(k));
        s.drop_last().lemma_flatten_push(q);
        assert(s.drop_last().push(q) =~= s);
        assert forall|x: A|
            #![trigger count(s.flatten(), x)]
            #![trigger count(t.flatten(), x)]
            count(s.flatten(), x) == count(t.flatten(), x) by {
            lemma_count_flatten_remove(t, k, x);
            lemma_count_concat(s.drop_last().flatten(), q, x);
            assert(count(s.drop_last().flatten(), x) == count(t.remove(k).flatten(), x));
        }
    }
}

} // verus!
