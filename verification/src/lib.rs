//! Discrete core of a rigid-body mechanics engine: collision filtering and
//! narrowphase routing, contact-feature numbering, contact islands and
//! sleeping, contact start/end events, the warm-start cache, the
//! edge-selection rules of 2D polygon booleans, and the index bookkeeping of
//! hull construction, mesh compaction, triangulation, extrusion and rope
//! building.
pub mod body;
pub mod collision;
pub mod contact;
pub mod events;
pub mod gjk;
pub mod hull;
pub mod sketch;
pub mod sleep;
pub mod soft_body;

pub use body::{
    collision_filter_allows, BodyType, ShapeHandle, ShapeStore, DEFAULT_COLLISION_GROUP,
    DEFAULT_COLLISION_MASK,
};
pub use contact::ManifoldCache;
pub use sketch::BooleanOp;
