//! The two multiplicity tables of a window state, kept in `counter::Counter`.
//!
//! A `Counter` is a hash map from item to count. Verus cannot look into it, so
//! what the tables hold is named by [`label_counts`] and [`query_counts`], and
//! each operation that the window state uses is stated over those names.
//! Nothing in this file is proved: every function here is a direct call into
//! `counter` or into the `HashMap` that a `Counter` dereferences to.

use counter::Counter;
use vstd::prelude::*;

use crate::parse_dns::labels_of;

verus! {

/// `counter::Counter`, of which nothing but its name is known here.
#[verifier::external_type_specification]
#[verifier::external_body]
#[verifier::reject_recursive_types(T)]
#[verifier::reject_recursive_types(N)]
pub struct ExCounter<T: core::hash::Hash + Eq, N>(Counter<T, N>);

/// The entries of a counter of labels: each label that has an entry, with the
/// count stored for it.
pub uninterp spec fn label_counts(c: Counter<Vec<u8>, usize>) -> Map<Seq<u8>, usize>;

/// `Counter::new`: a counter without entries.
#[verifier::external_body]
pub(crate) fn new_label_counter() -> (c: Counter<Vec<u8>, usize>)
    ensures
        label_counts(c) == (Map::<Seq<u8>, usize>::empty()),
{
    Counter::new()
}

/// `HashMap::get` through `Counter`'s `Deref`: the count stored for `label`,
/// if it has an entry. Two labels are the same key when they hold the same
/// bytes.
#[verifier::external_body]
pub(crate) fn label_count(c: &Counter<Vec<u8>, usize>, label: &Vec<u8>) -> (n: Option<usize>)
    ensures
        n == (if label_counts(*c).contains_key(label@) {
            Some(label_counts(*c)[label@])
        } else {
            None
        }),
{
    c.get(label).copied()
}

/// `HashMap::insert` through `Counter`'s `DerefMut`: afterwards `label` has
/// the count `n`, whether or not it had an entry; the other entries stay.
#[verifier::external_body]
pub(crate) fn set_label_count(c: &mut Counter<Vec<u8>, usize>, label: Vec<u8>, n: usize)
    ensures
        label_counts(*final(c)) == label_counts(*old(c)).insert(label@, n),
{
    c.insert(label, n);
}

/// `HashMap::remove` through `Counter`'s `DerefMut`: afterwards `label` has
/// no entry; the other entries stay.
#[verifier::external_body]
pub(crate) fn drop_label(c: &mut Counter<Vec<u8>, usize>, label: &Vec<u8>)
    ensures
        label_counts(*final(c)) == label_counts(*old(c)).remove(label@),
{
    c.remove(label);
}

/// `HashMap::len` through `Counter`'s `Deref`: the number of entries.
#[verifier::external_body]
pub(crate) fn n_label_entries(c: &Counter<Vec<u8>, usize>) -> (n: usize)
    ensures
        n == label_counts(*c).dom().len(),
{
    c.len()
}

/// `HashMap::keys` through `Counter`'s `Deref`, each key cloned: every label
/// that has an entry, once, in an order that is not specified.
#[verifier::external_body]
pub(crate) fn counted_labels(c: &Counter<Vec<u8>, usize>) -> (labels: Vec<Vec<u8>>)
    ensures
        labels_of(labels@).no_duplicates(),
        forall|label: Seq<u8>|
            labels_of(labels@).contains(label) <==> label_counts(*c).contains_key(label),
{
    c.keys().cloned().collect()
}

/// The entries of a counter of queries: each sequence of labels that has an
/// entry, with the count stored for it.
pub uninterp spec fn query_counts(c: Counter<Vec<Vec<u8>>, usize>) -> Map<Seq<Seq<u8>>, usize>;

/// `Counter::new`: a counter without entries.
#[verifier::external_body]
pub(crate) fn new_query_counter() -> (c: Counter<Vec<Vec<u8>>, usize>)
    ensures
        query_counts(c) == (Map::<Seq<Seq<u8>>, usize>::empty()),
{
    Counter::new()
}

/// `HashMap::get` through `Counter`'s `Deref`: the count stored for `query`,
/// if it has an entry. Two queries are the same key when they hold the same
/// labels in the same order.
#[verifier::external_body]
pub(crate) fn query_count(c: &Counter<Vec<Vec<u8>>, usize>, query: &Vec<Vec<u8>>) -> (n: Option<
    usize,
>)
    ensures
        n == (if query_counts(*c).contains_key(labels_of(query@)) {
            Some(query_counts(*c)[labels_of(query@)])
        } else {
            None
        }),
{
    c.get(query).copied()
}

/// `HashMap::insert` through `Counter`'s `DerefMut`: afterwards `query` has
/// the count `n`, whether or not it had an entry; the other entries stay.
#[verifier::external_body]
pub(crate) fn set_query_count(c: &mut Counter<Vec<Vec<u8>>, usize>, query: Vec<Vec<u8>>, n: usize)
    ensures
        query_counts(*final(c)) == query_counts(*old(c)).insert(labels_of(query@), n),
{
    c.insert(query, n);
}

/// `HashMap::remove` through `Counter`'s `DerefMut`: afterwards `query` has
/// no entry; the other entries stay.
#[verifier::external_body]
pub(crate) fn drop_query(c: &mut Counter<Vec<Vec<u8>>, usize>, query: &Vec<Vec<u8>>)
    ensures
        query_counts(*final(c)) == query_counts(*old(c)).remove(labels_of(query@)),
{
    c.remove(query);
}

/// `HashMap::len` through `Counter`'s `Deref`: the number of entries.
#[verifier::external_body]
pub(crate) fn n_query_entries(c: &Counter<Vec<Vec<u8>>, usize>) -> (n: usize)
    ensures
        n == query_counts(*c).dom().len(),
{
    c.len()
}

} // verus!
