//! The errors that the library reports.

use vstd::prelude::*;

verus! {

/// What can go wrong while validating the configuration or setting up the
/// virtual display.
#[derive(Debug)]
pub enum WasdError {
    /// The configured rotation is not a quarter turn.
    InvalidRotation,
    /// The `xrandr` report lists no connected `Virtual-` output.
    VirtualOutputNotFound,
    /// The `xrandr` report lists no connected physical output.
    PhysicalDisplayNotFound,
    /// The `xrandr` report gives no position for the named output.
    GeometryNotFound { output: String },
    /// `xrandr` did not succeed in configuring the virtual output.
    XrandrFailed,
    /// `xrandr` did not succeed in turning the virtual output off.
    DisableFailed,
    /// `i3-msg` did not succeed in moving the workspace.
    MoveWorkspaceFailed,
}

/// The text of a message, given by its characters.
pub open spec fn error_text(e: WasdError) -> Seq<char> {
    match e {
        WasdError::InvalidRotation => "rotation must be 0, 90, 180, or 270"@,
        WasdError::VirtualOutputNotFound => "Could not find virtual output"@,
        WasdError::PhysicalDisplayNotFound => "Could not find physical display"@,
        WasdError::GeometryNotFound { output } => "Could not find geometry for "@ + output@,
        WasdError::XrandrFailed => "xrandr failed"@,
        WasdError::DisableFailed => "Failed to disable virtual display"@,
        WasdError::MoveWorkspaceFailed => "Failed to move workspace"@,
    }
}

impl WasdError {
    /// The message that describes this error.
    pub fn message(&self) -> (m: String)
        ensures
            m@ == error_text(*self),
    {
        match self {
            WasdError::InvalidRotation => String::from_str("rotation must be 0, 90, 180, or 270"),
            WasdError::VirtualOutputNotFound => String::from_str("Could not find virtual output"),
            WasdError::PhysicalDisplayNotFound => String::from_str("Could not find physical display"),
            WasdError::GeometryNotFound { output } => {
                let mut m = String::from_str("Could not find geometry for ");
                m.append(output.as_str());
                m
            },
            WasdError::XrandrFailed => String::from_str("xrandr failed"),
            WasdError::DisableFailed => String::from_str("Failed to disable virtual display"),
            WasdError::MoveWorkspaceFailed => String::from_str("Failed to move workspace"),
        }
    }
}

} // verus!
