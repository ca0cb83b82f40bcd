//! A registry of known-good file digests and the engine that classifies
//! how each tracked file has drifted from its recorded digest.

pub mod cli;
pub mod digest;
pub mod registry;
pub mod verify;
