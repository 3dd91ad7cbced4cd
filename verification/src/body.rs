//! Body kinds, shape handles and the broadphase collision filter.
use vstd::prelude::*;

verus! {

/// Index of a shape inside a [`ShapeStore`].
#[derive(Clone, Copy, PartialEq, Eq, Debug, Hash, Structural)]
pub struct ShapeHandle(pub u32);

/// How a rigid body takes part in the simulation.
#[derive(Clone, Copy, PartialEq, Eq, Debug, Structural)]
pub enum BodyType {
    /// Obeys every law: forces, gravity and contacts move it.
    Dynamic,
    /// Never moves (ground, walls); infinite mass.
    Static,
    /// Moved by script at a prescribed velocity; receives no forces.
    Kinematic,
}

/// Whether a body of this kind is dynamic.
pub open spec fn is_dynamic(t: BodyType) -> bool {
    t is Dynamic
}

/// Append-only pool of shapes. A body refers to its shape through the
/// [`ShapeHandle`] returned by [`ShapeStore::insert`]; handles stay valid forever.
pub struct ShapeStore<S> {
    shapes: Vec<S>,
}

impl<S> View for ShapeStore<S> {
    type V = Seq<S>;

    closed spec fn view(&self) -> Seq<S> {
        self.shapes@
    }
}

impl<S> ShapeStore<S> {
    /// An empty pool.
    pub fn new() -> (store: ShapeStore<S>)
        ensures
            store@ == Seq::<S>::empty(),
    {
        ShapeStore { shapes: Vec::new() }
    }

    /// Number of shapes stored so far.
    pub fn len(&self) -> (n: usize)
        ensures
            n == self@.len(),
    {
        self.shapes.len()
    }

    /// Appends `shape` and returns the handle under which it is found again.
    /// Handles are 32-bit, so the last handle that can be handed out is
    /// `u32::MAX`.
    pub fn insert(&mut self, shape: S) -> (handle: ShapeHandle)
        requires
            old(self)@.len() <= u32::MAX,
        ensures
            final(self)@ == old(self)@.push(shape),
            handle.0 == old(self)@.len(),
    {
        let index = self.shapes.len();
        self.shapes.push(shape);
        ShapeHandle(index as u32)
    }

    /// The shape stored under `handle`.
    pub fn get(&self, handle: ShapeHandle) -> (shape: &S)
        requires
            handle.0 < self@.len(),
        ensures
            *shape == self@[handle.0 as int],
    {
        &self.shapes[handle.0 as usize]
    }
}

/// The store only grows: inserting keeps every earlier handle pointing at the
/// same shape, and the new handle finds the shape just inserted.
pub proof fn lemma_store_is_append_only<S>(before: Seq<S>, shape: S, handle: int)
    requires
        0 <= handle < before.len(),
    ensures
        before.push(shape)[handle] == before[handle],
        before.push(shape)[before.len() as int] == shape,
{
}

/// Default collision group: every body belongs to group 1.
pub const DEFAULT_COLLISION_GROUP: u32 = 1;

/// Default collision mask: a body sees every group.
pub const DEFAULT_COLLISION_MASK: u32 = 0xffff_ffffu32;

/// The broadphase filter as a formula: each side must see the other's group.
pub open spec fn filter_allows(group_a: u32, mask_a: u32, group_b: u32, mask_b: u32) -> bool {
    (mask_a & group_b) != 0 && (mask_b & group_a) != 0
}

/// Broadphase pair filter. The test is taken in both directions: a pair is
/// kept only when `a`'s mask sees `b`'s group **and** `b`'s mask sees `a`'s
/// group, so a contact is never one-sided.
pub fn collision_filter_allows(group_a: u32, mask_a: u32, group_b: u32, mask_b: u32) -> (allowed:
    bool)
    ensures
        allowed == filter_allows(group_a, mask_a, group_b, mask_b),
{
    (mask_a & group_b) != 0 && (mask_b & group_a) != 0
}

/// The filter is symmetric: swapping the two bodies never changes the verdict.
pub proof fn lemma_filter_symmetric(group_a: u32, mask_a: u32, group_b: u32, mask_b: u32)
    ensures
        filter_allows(group_a, mask_a, group_b, mask_b) == filter_allows(
            group_b,
            mask_b,
            group_a,
            mask_a,
        ),
{
}

/// Two bodies that keep the default group and mask always collide.
pub proof fn lemma_defaults_collide()
    ensures
        filter_allows(
            DEFAULT_COLLISION_GROUP,
            DEFAULT_COLLISION_MASK,
            DEFAULT_COLLISION_GROUP,
            DEFAULT_COLLISION_MASK,
        ),
{
    assert(0xffff_ffffu32 & 1u32 == 1u32) by (bit_vector);
}

/// A body with the default mask sees every non-empty group, so the default
/// mask never filters out a pair by itself.
pub proof fn lemma_default_mask_sees_every_group(group: u32)
    requires
        group != 0,
    ensures
        (DEFAULT_COLLISION_MASK & group) != 0,
{
    assert(group != 0 ==> 0xffff_ffffu32 & group == group) by (bit_vector);
}

/// A body whose mask hides the other's group drops the pair, whatever the
/// other body's mask says.
pub proof fn lemma_one_sided_mask_drops_pair(group_a: u32, mask_a: u32, group_b: u32, mask_b: u32)
    requires
        (mask_a & group_b) == 0,
    ensures
        !filter_allows(group_a, mask_a, group_b, mask_b),
        !filter_allows(group_b, mask_b, group_a, mask_a),
{
}

} // verus!
