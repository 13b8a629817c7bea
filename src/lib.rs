//! Supervision of external applications: a registry of live processes keyed
//! by application id, the decisions taken when starting, stopping and
//! watching them, the shell invocation that launches them, the relay that
//! turns their output into line events, and parsers for the host's process
//! and socket tables.
pub mod command;
pub mod host;
pub mod icon;
pub mod registry;
pub mod relay;
pub mod supervisor;
pub mod text;
