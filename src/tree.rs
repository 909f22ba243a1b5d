//! The interval tree that indexes function ranges.

use vstd::prelude::*;
use intervaltree::IntervalTree;

verus! {

#[verifier::external_type_specification]
#[verifier::external_body]
#[verifier::reject_recursive_types(K)]
#[verifier::reject_recursive_types(V)]
pub struct ExIntervalTree<K, V>(IntervalTree<K, V>);

/// The elements of a tree, each as `(start, end, value)`.
pub uninterp spec fn tree_elements(t: IntervalTree<u64, usize>) -> Set<(u64, u64, usize)>;

/// The tree has an element with value `v` whose range holds `p`.
pub open spec fn holds_at(t: IntervalTree<u64, usize>, v: usize, p: u64) -> bool {
    exists|b: u64, e: u64| #[trigger] tree_elements(t).contains((b, e, v)) && b <= p && p < e
}

/// Relies on `IntervalTree`'s `FromIterator`: the tree holds the elements it
/// is built from, with ranges `start..end`.
#[verifier::external_body]
pub fn build_tree(elems: Vec<(u64, u64, usize)>) -> (r: IntervalTree<u64, usize>)
    ensures
        tree_elements(r) == elems@.to_set(),
{
    elems.into_iter().map(|(b, e, v)| (b..e, v)).collect()
}

/// Relies on `IntervalTree::query_point`: it yields the elements whose range
/// holds the point (`start <= p < end`); their values are returned.
#[verifier::external_body]
pub fn tree_query_point(t: &IntervalTree<u64, usize>, p: u64) -> (r: Vec<usize>)
    ensures
        forall|v: usize| r@.contains(v) == holds_at(*t, v, p),
{
    t.query_point(p).map(|el| el.value).collect()
}

} // verus!
