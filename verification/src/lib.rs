//! An in-memory registry mapping style identifiers to rendering styles,
//! kept consistent with per-color opacity settings as styles are redefined
//! and opacities change.

pub mod laws;
pub mod registry;
pub mod style;
