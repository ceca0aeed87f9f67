//! The bounding-volume hierarchy of the `bvh_arena` crate, as the spatial
//! index uses it: entities keyed by `u64`, two-dimensional boxes.
use vstd::prelude::*;
use bvh_arena::volumes::Aabb;
use bvh_arena::{Bvh, VolumeHandle};

verus! {

#[verifier::external_type_specification]
#[verifier::external_body]
pub struct ExVolumeHandle(VolumeHandle);

#[verifier::external_type_specification]
#[verifier::external_body]
pub struct ExAabb<const D: usize>(Aabb<D>);

/// A `bvh_arena` tree of two-dimensional boxes, each tagged with an entity.
/// Verus cannot declare `Bvh` itself (its volume parameter is bounded by an
/// outside trait), so the tree is held here, out of Verus's sight, and
/// described by `tree_entries`.
#[verifier::external_body]
pub struct Tree {
    bvh: Bvh<u64, Aabb<2>>,
}

/// The leaves of a tree: for each live handle, the entity and the box that
/// were inserted under it.
pub uninterp spec fn tree_entries(t: Tree) -> Map<VolumeHandle, (u64, Aabb<2>)>;

/// Whether two boxes overlap, as `Aabb::overlaps` decides on their `f32`
/// bounds: in each dimension, each box's minimum is at most the other's
/// maximum.
pub uninterp spec fn aabb_overlaps(a: Aabb<2>, b: Aabb<2>) -> bool;

/// Some leaf carries `entity`.
pub open spec fn has_leaf_of(leaves: Map<VolumeHandle, (u64, Aabb<2>)>, entity: u64) -> bool {
    exists|h: VolumeHandle| leaves.contains_key(h) && (#[trigger] leaves[h]).0 == entity
}

/// Relies on `Bvh::default`: a new tree has no leaves.
#[verifier::external_body]
pub(crate) fn tree_new() -> (r: Tree)
    ensures
        forall|h: VolumeHandle| !tree_entries(r).contains_key(h),
{
    Tree { bvh: Bvh::default() }
}

/// Relies on `Bvh::insert`: it adds one leaf under a handle that no live
/// leaf has (a fresh slot-map key) and returns that handle.
#[verifier::external_body]
pub(crate) fn tree_insert(t: &mut Tree, entity: u64, volume: Aabb<2>) -> (h: VolumeHandle)
    ensures
        !tree_entries(*old(t)).contains_key(h),
        tree_entries(*final(t)) == tree_entries(*old(t)).insert(h, (entity, volume)),
{
    t.bvh.insert(entity, volume)
}

/// Relies on `Bvh::remove`: given the handle of a live leaf, it removes that
/// leaf alone and returns its entity.
#[verifier::external_body]
pub(crate) fn tree_remove(t: &mut Tree, h: VolumeHandle) -> (r: Option<u64>)
    requires
        tree_entries(*old(t)).contains_key(h),
    ensures
        tree_entries(*final(t)) == tree_entries(*old(t)).remove(h),
        r == Some(tree_entries(*old(t))[h].0),
{
    t.bvh.remove(h)
}

/// Relies on `Bvh::for_each_overlaps` and `Aabb::overlaps`: the traversal
/// visits each leaf whose box overlaps `volume` exactly once (an inner
/// node's box is the merge of its children's, so it overlaps whenever one of
/// them does) and no other leaf, and hands out each one's entity.
#[verifier::external_body]
pub(crate) fn tree_query(t: &Tree, volume: &Aabb<2>) -> (r: Vec<u64>)
    ensures
        forall|i: int| 0 <= i < r@.len() ==> has_leaf_of(tree_entries(*t), #[trigger] r@[i]),
        forall|entity: u64|
            #[trigger] r@.to_multiset().count(entity) == Set::new(
                |h: VolumeHandle|
                    tree_entries(*t).contains_key(h) && tree_entries(*t)[h].0 == entity
                        && aabb_overlaps(tree_entries(*t)[h].1, *volume),
            ).len(),
{
    let mut found = Vec::new();
    t.bvh.for_each_overlaps(volume, |entity: &u64| found.push(*entity));
    found
}

} // verus!
