//! Pose evaluation for a hierarchical character skeleton: bone hierarchy
//! construction, evaluation order, world-matrix propagation, morph-graph
//! repair and flattening, and the per-stage update schedule.
//!
//! The numeric work (matrices, quaternions, blend weights) is supplied by the
//! caller; this crate decides what is computed from what, and in which order.

pub mod animation;
pub mod bone;
pub mod model;
pub mod morph;
pub mod order;

pub use animation::{
    MmdAnimation, MmdBoneAnimationTrack, MmdMorphAnimationTrack, MmdMovableBoneAnimationTrack,
    MmdPropertyAnimationTrack,
};
pub use bone::{MmdRuntimeBone, MmdRuntimeBoneArena};
pub use model::{
    AppendTransformRecord, AppendTransformSolver, BoneRecord, BuildError, IkRecord, IkSolver,
    MmdModel, UpdateStep,
};
pub use morph::{FlatMorph, MmdMorphController, MorphMetadata, MorphUpdate};
pub use order::sorted_bone_order;
