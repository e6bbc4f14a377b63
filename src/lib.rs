//! A branching tree of simulation timelines.
//!
//! The library owns the node graph, decides how a node's simulation state is
//! derived from its ancestors, tracks which derived states are cached, and
//! says which cache entries an edit makes stale. Patch contents and the
//! simulation state itself stay opaque: whoever runs a derivation plan applies
//! the patches and advances the physics.

pub mod handle;
pub mod node;
pub mod multiverse;
