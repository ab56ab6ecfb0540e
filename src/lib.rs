//! A dependency graph of shader uniforms: each uniform may be computed from
//! others, setting one recomputes every uniform that depends on it, and
//! flushing one lists the values to hand to the rendering surface.

pub mod calculation;
pub mod dag;
pub mod flush;
pub mod laws;
pub mod propagation;
pub mod uniform;
