//! Blockbuster's logic, verified: the configuration model and its validation, the nfqws2
//! parameter-file renderer, the Lua function registry, the candidate strategies and their cost,
//! the firewall ruleset and the ports it queues, the restart policy, the engine's state machine,
//! the daemon's answers and their wire types, the reachability check's hello and verdicts, what
//! the machine's probes mean, the standard locations, and the GUI's own decisions.

pub mod text;
pub mod args;
pub mod config;
pub mod registry;
pub mod render;
pub mod supervisor;
pub mod firewall;
pub mod ports;
pub mod protocol;
pub mod engine;
pub mod daemon;
pub mod candidates;
pub mod reachability;
pub mod detect;
pub mod paths;
pub mod gui;
