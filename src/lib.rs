//! Generation of runtime layout descriptors from flat C-derived declarations
//! (structs, type aliases and integer constants).
pub mod emit;
pub mod entities;
pub mod enums;
pub mod laws;
pub mod model;
pub mod render;
pub mod text;
