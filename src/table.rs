//! The two-way table of `bimap::BiMap`, as the branch matcher and the machine
//! use it: keys are branch positions, values the matching return positions.

use vstd::prelude::*;
use bimap::BiMap;

verus! {

#[verifier::external_type_specification]
#[verifier::external_body]
#[verifier::reject_recursive_types(L)]
#[verifier::reject_recursive_types(R)]
#[verifier::reject_recursive_types(LS)]
#[verifier::reject_recursive_types(RS)]
pub struct ExBiHashMap<L, R, LS, RS>(bimap::BiHashMap<L, R, LS, RS>);

/// A table from branch positions to return positions.
pub type Table = BiMap<usize, usize>;

/// The left-to-right pairs that a table holds.
pub uninterp spec fn pairs_of(m: Table) -> Map<usize, usize>;

/// Whether some pair of `pairs` has `right` on its right side.
pub open spec fn has_right(pairs: Map<usize, usize>, right: usize) -> bool {
    exists|l: usize| pairs.contains_key(l) && pairs[l] == right
}

/// `pairs` without the pairs whose left side is `left` or whose right side is
/// `right`, and then with (`left`, `right`).
pub open spec fn inserted(pairs: Map<usize, usize>, left: usize, right: usize) -> Map<usize, usize> {
    Map::new(
        |l: usize| pairs.contains_key(l) && l != left && pairs[l] != right,
        |l: usize| pairs[l],
    ).insert(left, right)
}

/// Relies on `BiMap::new`: the new table is empty.
#[verifier::external_body]
pub(crate) fn table_new() -> (r: Table)
    ensures
        pairs_of(r).dom() == Set::<usize>::empty(),
{
    BiMap::new()
}

/// Relies on `BiMap::insert`: the pairs that share `left` or `right` go, and
/// (`left`, `right`) comes in.
#[verifier::external_body]
pub(crate) fn table_insert(m: &mut Table, left: usize, right: usize)
    ensures
        pairs_of(*final(m)) == inserted(pairs_of(*old(m)), left, right),
{
    m.insert(left, right);
}

/// Relies on `BiMap::contains_right`: whether a pair has `right` on its right.
#[verifier::external_body]
pub(crate) fn table_contains_right(m: &Table, right: usize) -> (r: bool)
    ensures
        r == has_right(pairs_of(*m), right),
{
    m.contains_right(&right)
}

/// Relies on `BiMap::get_by_left`: the right side paired with `left`.
#[verifier::external_body]
pub(crate) fn table_get_by_left(m: &Table, left: usize) -> (r: Option<usize>)
    ensures
        pairs_of(*m).contains_key(left) ==> r == Some(pairs_of(*m)[left]),
        !pairs_of(*m).contains_key(left) ==> r is None,
{
    m.get_by_left(&left).copied()
}

/// Relies on `BiMap::get_by_right`: a left side paired with `right`.
#[verifier::external_body]
pub(crate) fn table_get_by_right(m: &Table, right: usize) -> (r: Option<usize>)
    ensures
        match r {
            Some(l) => pairs_of(*m).contains_key(l) && pairs_of(*m)[l] == right,
            None => !has_right(pairs_of(*m), right),
        },
{
    m.get_by_right(&right).copied()
}

} // verus!
