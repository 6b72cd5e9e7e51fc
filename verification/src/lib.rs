//! An entity-indexed component store: generational entity handles, sparse
//! per-component stores whose dense positions are ranks in a presence set,
//! and joins that walk several stores in step.

pub mod bits;
pub mod comp_iter;
pub mod comp_vec;
pub mod dense;
pub mod entity;
pub mod entity_handle;
pub mod join;
pub mod join_laws;
pub mod lending;
pub mod mem_specs;
pub mod schema;
pub mod world;

pub use entity_handle::EntityHandle;
pub use entity_handle::EntityHandleCounter;
pub use comp_vec::CompVec;
pub use entity::EntityBorrowFromWorldTrait;
pub use entity::EntityInsertIntoWorldTrait;
pub use world::WorldBorrowTrait;
pub use world::WorldTrait;
pub use comp_iter::CompIterer;
pub use comp_iter::Iter;
pub use comp_iter::IterMut;
pub use comp_iter::NonOptionalCompIterer;
pub use comp_iter::Optional;
pub use join::CompIter;
pub use join::IntoCompIter;
pub use lending::ComponentStorage;
pub use lending::CompsIter;
