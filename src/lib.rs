//! Storage core of an entity-component-system world.
pub mod archetype;
pub mod bundle;
pub mod component;
pub mod entity;
pub mod entity_ref;
pub mod sorted;
pub mod sparse_set;
pub mod table;
pub mod world;
