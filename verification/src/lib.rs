//! Shader validation and scene-graph bookkeeping for an interactive 3D
//! shader viewer.
//!
//! A shader module that naga parsed is read ([`frontend`]) into a plain
//! description ([`ir`]). From that, [`shader`] chooses the entry points and
//! infers the bind group layouts that the shader asks for, and [`layout`]
//! decides whether the layouts that a pipeline offers accept them.
//! [`pipeline`] holds a pipeline object under a fixed contract of layouts
//! and swaps it for a new shader only where the contract accepts the shader.
//!
//! [`scene_tree`] keeps the nodes of a scene with their local and cached
//! global transforms and the models whose instances they place ([`model`]).
//! [`propagation`] says what updating the transforms computes, and
//! [`settling`] what holds of the tree afterwards.

pub mod error;
pub mod frontend;
pub mod ir;
pub mod layout;
pub mod model;
pub mod pipeline;
pub mod propagation;
pub mod resources;
pub mod scene_tree;
pub mod settling;
pub mod shader;
pub mod text;
