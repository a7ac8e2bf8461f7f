//! Verified core of `wltile`, a tool that lays out, configures and reports the
//! outputs (displays) of wlroots based compositors.

pub mod arith;
pub mod point;
pub mod text;
pub mod cli;
pub mod config;
pub mod layout;
pub mod error;
pub mod transform;
pub mod heads;
pub mod request;
pub mod position;
pub mod set_property;
pub mod snapshot;
pub mod writer;
pub mod decimal;
pub mod report;
pub mod daemon;
pub mod laws;
pub mod events;
pub mod render;
pub mod globals;
pub mod draw;
