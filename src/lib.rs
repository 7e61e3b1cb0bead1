//! Rotation of application log files: path handling, the stage chain
//! `log -> 0 -> ... -> 9`, the size gate, and the plan of file operations
//! that advances one log family by a stage.

pub mod error;
pub mod gate;
pub mod model;
pub mod path;
pub mod rotation;
pub mod stage;
