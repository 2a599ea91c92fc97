//! The structural core of an animation-blending engine, with its contracts
//! proved.
//!
//! - `field` and `path` parse the paths that name animated properties: an
//!   entity path (`root/hips`), a component and a field path within it
//!   (`my_crate::Transform.translation.x`), joined by `@`.
//! - `graph` holds the blend graph: clip leaves under weighted blend nodes. It
//!   decides which clips a time set on a node reaches, and which weighted paths
//!   reach each clip when the graph is evaluated.
//! - `track` gathers, per property, the curves that every registered clip
//!   contributes, registers a clip all at once or not at all, and picks the
//!   clips that contribute to a blended value.
//!
//! The numbers themselves (times, weights, sampled and blended values) are
//! floating point and are computed by the caller; weights cross this boundary
//! as their IEEE-754 binary32 encodings.

use vstd::prelude::*;

pub mod field;
pub mod graph;
pub mod path;
pub mod text;
pub mod track;

verus! {

} // verus!
