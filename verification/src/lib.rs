//! Verified core logic of the tau coding agent: hash-anchored edits,
//! observation-memory text handling, the SSE frame parser, skills parsing,
//! and the small numeric policies around them.

pub mod text;
pub mod hashline;
pub mod om;
pub mod provider;
pub mod skills;
pub mod session;
pub mod harness;
pub mod om_integration;
