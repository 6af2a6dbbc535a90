//! An oblivious A* search core for a 3x3 sliding-tile puzzle.
//!
//! The computing party manipulates only encrypted values: every comparison
//! whose outcome depends on secret content is resolved through an oblivious
//! select rather than a plaintext branch.  A key-holding client oracle is
//! consulted only at well-defined checkpoints (identity resolution, duplicate
//! detection, goal detection, path output).

pub mod controller;
pub mod enc;
pub mod errors;
pub mod expander;
pub mod list;
pub mod node;
pub mod oracle;
pub mod selector;
pub mod state;
