//! The configuration read from `~/.config/wasd/wasd.toml`.

use crate::error::WasdError;
use vstd::prelude::*;

verus! {

/// Where the virtual display sits relative to the primary monitor.
#[derive(Debug, Clone, Copy, PartialEq, Eq, Structural)]
pub enum Direction {
    Left,
    Right,
    Top,
    Bottom,
}

/// The `[display]` table.
#[derive(Debug, Clone, Copy, PartialEq, Eq, Structural)]
pub struct DisplayConfig {
    /// Width of the virtual display, in pixels.
    pub width: u16,
    /// Height of the virtual display, in pixels.
    pub height: u16,
    /// Position of the virtual display relative to the primary monitor.
    pub direction: Direction,
    /// Rotation the browser applies, in degrees.
    pub rotation: i32,
    /// The i3 workspace moved to the virtual display.
    pub workspace: u32,
    /// Frames captured per second.
    pub fps: u32,
}

/// The `[server]` table.
#[derive(Debug, Clone, Copy, PartialEq, Eq, Structural)]
pub struct ServerConfig {
    /// The port the streaming server listens on.
    pub port: u16,
}

/// The whole configuration file.
#[derive(Debug, Clone, Copy, PartialEq, Eq, Structural)]
pub struct Config {
    pub display: DisplayConfig,
    pub server: ServerConfig,
}

/// The configuration written when none exists yet.
pub const DEFAULT_CONFIG: &'static str = "[display]
width = 1024
height = 768
direction = \"right\"
rotation = 90
workspace = 10
fps = 30

[server]
port = 8080
";

/// A rotation the browser can apply: a whole number of quarter turns.
pub open spec fn valid_rotation(rotation: i32) -> bool {
    rotation == 0 || rotation == 90 || rotation == 180 || rotation == 270
}

impl Config {
    /// The configuration, if its rotation is 0, 90, 180 or 270 degrees.
    pub fn validate(self) -> (r: Result<Config, WasdError>)
        ensures
            valid_rotation(self.display.rotation) ==> r == Ok::<Config, WasdError>(self),
            !valid_rotation(self.display.rotation) ==> r matches Err(WasdError::InvalidRotation),
    {
        let rotation = self.display.rotation;
        if rotation == 0 || rotation == 90 || rotation == 180 || rotation == 270 {
            Ok(self)
        } else {
            Err(WasdError::InvalidRotation)
        }
    }
}

} // verus!
