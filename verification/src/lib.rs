//! Verified core of a tool that turns an Android phone's browser into a
//! secondary X11 display: `xrandr` report parsing, display configuration
//! commands, cursor compositing onto captured frames, and the streaming
//! server's decisions.

pub mod capture;
pub mod config;
pub mod display;
pub mod error;
pub mod server;
pub mod text;
