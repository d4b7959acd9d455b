//! Core of a small interactive command shell: a registry of named, possibly
//! overloaded commands, prefix-based name resolution, argument validation
//! against declared signatures, and a two-tier classification of handler
//! failures into recoverable and critical ones.

pub mod command;
pub mod numbers;
pub mod repl;
pub mod text;

pub use command::CommandStatus;
pub use command::Critical;
pub use command::CriticalError;
pub use repl::Repl;
