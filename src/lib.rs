//! Command routing and rule-based access control for a chat bot.
//!
//! The crate decides, for every command invocation, which module and command
//! it addresses (after alias expansion) and whether the invoking principal may
//! run it, using rule lists with presets that can reference each other.

pub mod clearance;
pub mod commands;
pub mod coords;
pub mod core_module;
pub mod options;
pub mod router;
pub mod rule;
pub mod switch;
pub mod text;
pub mod uptime;
