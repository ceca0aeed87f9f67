//! Orthogonal wire layout for schematic diagrams: separation of overlapping
//! parallel wire segments into tracks, and the spatial index that is rebuilt
//! from the separated geometry.
use vstd::prelude::*;

pub mod chain;
pub mod corridor;
pub mod fixed;
pub mod propagate;
pub mod separate;
pub mod small;
pub mod spatial;
pub mod tree;

verus! {

/// The layout core of an application: wire separation after routing, then
/// the spatial index rebuilt from the separated geometry. The application
/// shell registers the core under this name.
#[derive(Clone, Copy, Debug, Default, PartialEq, Eq)]
pub struct CorePlugin;

} // verus!
