//! What an aggregate of stores, with the allocator that serves them, offers.

use crate::entity::EntityBorrowFromWorldTrait;
use crate::entity::EntityInsertIntoWorldTrait;
use crate::entity_handle::EntityHandle;
use vstd::prelude::*;

verus! {

/// The whole aggregate: entities can be created, filled, and deleted.
pub trait WorldTrait: WorldBorrowTrait<'static> {
    /// `entity` may be deleted: it is live, and the stores are in order.
    spec fn deletable(&self, entity: EntityHandle) -> bool;

    /// `post` is `pre` after `entity` was deleted: gone from every store,
    /// and given back to the allocator.
    spec fn deleted(pre: Self, post: Self, entity: EntityHandle) -> bool;

    /// `empty` is the right answer to whether no store of the world holds
    /// an entry.
    spec fn emptiness(&self, empty: bool) -> bool;

    /// Removes the components of `entity` from every store, and gives the
    /// handle back.
    fn delete_entity(&mut self, entity: EntityHandle)
        requires
            old(self).deletable(entity),
        ensures
            Self::deleted(*old(self), *final(self), entity),
    ;

    /// Puts the components of `entity` in under a handle that exists.
    fn insert_at<E: EntityInsertIntoWorldTrait<Self>>(&mut self, handle: EntityHandle, entity: E)
        requires
            entity.insertable(handle, *old(self)),
        ensures
            entity.inserted(handle, *old(self), *final(self)),
    {
        entity.insert_into_world(handle, self)
    }

    /// Creates an entity and puts the components of `entity` in under its
    /// handle, which is returned.
    fn insert<E: EntityInsertIntoWorldTrait<Self>>(&mut self, entity: E) -> (handle: EntityHandle)
        requires
            old(self).can_create(),
            forall|mid: Self, h: EntityHandle|
                Self::created(*old(self), mid, h) ==> entity.insertable(h, mid),
        ensures
            exists|mid: Self|
                Self::created(*old(self), mid, handle) && entity.inserted(
                    handle,
                    mid,
                    *final(self),
                ),
    {
        let handle = self.new_entity();
        let ghost mid = *self;
        entity.insert_into_world(handle, self);
        assert(Self::created(*old(self), mid, handle) && entity.inserted(handle, mid, *self));
        handle
    }

    /// Whether no store of the world holds an entry.
    fn is_empty(&self) -> (empty: bool)
        ensures
            self.emptiness(empty),
    ;
}

/// What is left of a world while some of its stores are lent out: entities
/// can still be created and borrowed.
pub trait WorldBorrowTrait<'a>: Sized {
    /// The allocator can issue one more handle.
    spec fn can_create(&self) -> bool;

    /// `post` is `pre` after the allocator issued `handle`.
    spec fn created(pre: Self, post: Self, handle: EntityHandle) -> bool;

    /// `freed` is the right answer to whether `handle` is not live in the
    /// world's allocator.
    spec fn freedness(&self, handle: EntityHandle, freed: bool) -> bool;

    /// Creates an entity without components.
    fn new_entity(&mut self) -> (handle: EntityHandle)
        requires
            old(self).can_create(),
        ensures
            Self::created(*old(self), *final(self), handle),
    ;

    /// Whether `handle` is no longer, or was never, live.
    fn is_entity_already_freed(&self, handle: EntityHandle) -> (freed: bool)
        ensures
            self.freedness(handle, freed),
    ;

    /// Borrows the components that `T` names from `entity_handle`.
    fn borrow_entity<T: EntityBorrowFromWorldTrait<'a, Self>>(
        &'a mut self,
        entity_handle: EntityHandle,
    ) -> (bundle: T)
        requires
            T::borrowable(entity_handle, *old(self)),
        ensures
            T::borrowed(entity_handle, *old(self), bundle),
    {
        T::borrow_from_world(entity_handle, self)
    }
}

} // verus!
