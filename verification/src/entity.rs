//! What a bundle of components must offer to be put into a world, or
//! borrowed from one.

use crate::entity_handle::EntityHandle;
use vstd::prelude::*;

verus! {

/// A value that holds the components of one entity and can hand each to its
/// store in a world of type `WorldType`.
pub trait EntityInsertIntoWorldTrait<WorldType>: Sized {
    /// What the bundle asks of the world before it goes in under `id`.
    spec fn insertable(self, id: EntityHandle, world: WorldType) -> bool;

    /// `post` is `pre` after the bundle went in under `id`.
    spec fn inserted(self, id: EntityHandle, pre: WorldType, post: WorldType) -> bool;

    /// Inserts each component of the bundle into its store, under `id`.
    fn insert_into_world(self, id: EntityHandle, world: &mut WorldType)
        requires
            self.insertable(id, *old(world)),
        ensures
            self.inserted(id, *old(world), *final(world)),
    ;
}

/// A value made of mutable references to the components that one entity has
/// in a world of type `WorldType`.
pub trait EntityBorrowFromWorldTrait<'a, WorldType>: Sized {
    /// The world has every component that the bundle names for
    /// `entity_handle`.
    spec fn borrowable(entity_handle: EntityHandle, world: WorldType) -> bool;

    /// `bundle` refers to the components that `entity_handle` has in
    /// `world`.
    spec fn borrowed(entity_handle: EntityHandle, world: WorldType, bundle: Self) -> bool;

    /// Borrows the components of `entity_handle`.
    fn borrow_from_world(entity_handle: EntityHandle, world: &'a mut WorldType) -> (bundle: Self)
        requires
            Self::borrowable(entity_handle, *old(world)),
        ensures
            Self::borrowed(entity_handle, *old(world), bundle),
    ;
}

} // verus!
