//! The visited-point sets the traversal algorithms rely on, backed by
//! `ahash::AHashSet` behind a small trusted boundary: each wrapper states
//! over `point_set_view` what the hash set operation does to the contents.

use vstd::prelude::*;

use crate::grid::Point;

verus! {

#[verifier::external_type_specification]
#[verifier::external_body]
#[verifier::reject_recursive_types(T)]
#[verifier::reject_recursive_types(S)]
pub struct ExAHashSet<T, S>(ahash::AHashSet<T, S>);

#[verifier::external_type_specification]
#[verifier::external_body]
pub struct ExRandomState(ahash::RandomState);

/// The mathematical set of points a hash set of grid points holds.
pub uninterp spec fn point_set_view(s: &ahash::AHashSet<Point>) -> Set<Point>;

/// Relies on `AHashSet::new` (`HashSet::with_hasher`): a freshly created
/// set holds nothing.
#[verifier::external_body]
pub fn point_set_new() -> (s: ahash::AHashSet<Point>)
    ensures
        point_set_view(&s) == Set::<Point>::empty(),
        point_set_view(&s).finite(),
{
    ahash::AHashSet::new()
}

/// Relies on `HashSet::insert` (through `AHashSet`'s deref): afterwards the
/// set holds the old contents plus `p`, and the call reports whether `p`
/// was newly added.
#[verifier::external_body]
pub fn point_set_insert(s: &mut ahash::AHashSet<Point>, p: Point) -> (newly: bool)
    ensures
        point_set_view(final(s)) == point_set_view(old(s)).insert(p),
        newly == !point_set_view(old(s)).contains(p),
        point_set_view(old(s)).finite(),
        point_set_view(final(s)).finite(),
{
    s.insert(p)
}

/// Relies on `HashSet::contains` (through `AHashSet`'s deref): membership in
/// the contents.
#[verifier::external_body]
pub fn point_set_contains(s: &ahash::AHashSet<Point>, p: Point) -> (r: bool)
    ensures
        r == point_set_view(s).contains(p),
{
    s.contains(&p)
}

/// Relies on `HashSet::len` (through `AHashSet`'s deref): the number of
/// elements the set holds.
#[verifier::external_body]
pub fn point_set_len(s: &ahash::AHashSet<Point>) -> (r: usize)
    ensures
        r == point_set_view(s).len(),
{
    s.len()
}

} // verus!
