//! Hash collections keyed by grid points, as the search uses them.

use vstd::prelude::*;

verus! {

/// A set of grid points, stored in bevy's `HashSet` (hashbrown's `HashSet`
/// with a fixed hasher state). The table is not verified: its contents are
/// known to proofs only as [`point_set_members`].
#[verifier::external_body]
pub struct PointSet {
    inner: bevy::utils::HashSet<(usize, usize)>,
}

/// The points that a [`PointSet`] holds.
pub uninterp spec fn point_set_members(set: PointSet) -> Set<(usize, usize)>;

impl PointSet {
    /// Calls `HashSet::new`, which creates an empty set.
    #[verifier::external_body]
    pub(crate) fn new() -> (set: PointSet)
        ensures
            point_set_members(set) == Set::<(usize, usize)>::empty(),
    {
        PointSet { inner: bevy::utils::HashSet::new() }
    }

    /// Calls `HashSet::insert`, which adds the point to the set; a point
    /// already present stays, and nothing else changes.
    #[verifier::external_body]
    pub(crate) fn insert(&mut self, point: (usize, usize))
        ensures
            point_set_members(*final(self)) == point_set_members(*old(self)).insert(point),
    {
        self.inner.insert(point);
    }

    /// Calls `HashSet::contains`, which tells whether the point is in the set.
    #[verifier::external_body]
    pub(crate) fn contains(&self, point: (usize, usize)) -> (found: bool)
        ensures
            found == point_set_members(*self).contains(point),
    {
        self.inner.contains(&point)
    }
}

/// A map from grid points to positions in a sequence, stored in bevy's
/// `HashMap` (hashbrown's `HashMap` with a fixed hasher state). The table is
/// not verified: its contents are known to proofs only as
/// [`point_index_entries`].
#[verifier::external_body]
pub struct PointIndex {
    inner: bevy::utils::HashMap<(usize, usize), usize>,
}

/// The entries that a [`PointIndex`] holds.
pub uninterp spec fn point_index_entries(index: PointIndex) -> Map<(usize, usize), usize>;

impl PointIndex {
    /// Calls `HashMap::new`, which creates an empty map.
    #[verifier::external_body]
    pub(crate) fn new() -> (lookup: PointIndex)
        ensures
            forall|point: (usize, usize)| !point_index_entries(lookup).contains_key(point),
    {
        PointIndex { inner: bevy::utils::HashMap::new() }
    }

    /// Calls `HashMap::entry` and `Entry::or_insert` on the entry it gives:
    /// a point that has no entry gets the position, and a point that has one
    /// keeps it. Nothing else changes.
    #[verifier::external_body]
    pub(crate) fn insert_if_absent(&mut self, point: (usize, usize), position: usize)
        ensures
            point_index_entries(*final(self)) == if point_index_entries(*old(self)).contains_key(
                point,
            ) {
                point_index_entries(*old(self))
            } else {
                point_index_entries(*old(self)).insert(point, position)
            },
    {
        self.inner.entry(point).or_insert(position);
    }

    /// Calls `HashMap::get`, which gives the position stored for the point,
    /// if there is one.
    #[verifier::external_body]
    pub(crate) fn get(&self, point: (usize, usize)) -> (position: Option<usize>)
        ensures
            position == if point_index_entries(*self).contains_key(point) {
                Some(point_index_entries(*self)[point])
            } else {
                None
            },
    {
        self.inner.get(&point).copied()
    }
}

} // verus!
