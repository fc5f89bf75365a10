use wasd::config::Direction;
use wasd::display::{
    cleanup_args, configure_args, find_primary_output, find_virtual_output, get_geometry,
    mode_name, placement_flag, workspace_command, word_position_exec,
};
use wasd::error::WasdError;

const REPORT: &str = "Screen 0: minimum 320 x 200, current 2390 x 768, maximum 16384 x 16384
eDP-1 connected primary 1366x768+0+0 (normal left inverted right x axis y axis) 309mm x 174mm
   1366x768      60.00*+
HDMI-1 disconnected (normal left inverted right x axis y axis)
Virtual-1-1 connected 1024x768+1366+0 (normal left inverted right x axis y axis) 0mm x 0mm
   1024x768      60.00*
";

fn chars(s: &str) -> Vec<char> {
    s.chars().collect()
}

#[test]
fn finds_connected_virtual_output() {
    assert_eq!(find_virtual_output(REPORT).unwrap(), "Virtual-1-1");
}

#[test]
fn skips_disconnected_virtual_output() {
    let report = "Virtual-1 disconnected (normal)\nVirtual-2 connected 800x600+0+0\n";
    assert_eq!(find_virtual_output(report).unwrap(), "Virtual-2");
}

#[test]
fn no_virtual_output() {
    let report = "eDP-1 connected primary 1366x768+0+0\nHDMI-1 disconnected\n";
    assert!(matches!(find_virtual_output(report), Err(WasdError::VirtualOutputNotFound)));
    assert!(matches!(find_virtual_output(""), Err(WasdError::VirtualOutputNotFound)));
}

#[test]
fn virtual_output_line_must_start_with_prefix() {
    let report = " Virtual-1 connected 800x600+0+0\n";
    assert!(matches!(find_virtual_output(report), Err(WasdError::VirtualOutputNotFound)));
}

#[test]
fn finds_primary_output() {
    assert_eq!(find_primary_output(REPORT).unwrap(), "eDP-1");
}

#[test]
fn primary_marker_preferred_over_order() {
    let report = "HDMI-1 connected 1920x1080+0+0\neDP-1 connected primary 1366x768+1920+0\n";
    assert_eq!(find_primary_output(report).unwrap(), "eDP-1");
}

#[test]
fn primary_falls_back_to_first_connected_physical() {
    let report = "Virtual-1 connected primary 1024x768+0+0\nHDMI-1 disconnected\nDP-2 connected 1920x1080+1024+0\n";
    assert_eq!(find_primary_output(report).unwrap(), "DP-2");
}

#[test]
fn no_physical_output() {
    let report = "Virtual-1 connected primary 1024x768+0+0\nHDMI-1 disconnected\n";
    assert!(matches!(find_primary_output(report), Err(WasdError::PhysicalDisplayNotFound)));
}

#[test]
fn crlf_lines() {
    let report = "eDP-1 connected primary 1366x768+0+0\r\nVirtual-1 connected 1024x768+1366+0\r\n";
    assert_eq!(find_virtual_output(report).unwrap(), "Virtual-1");
    assert_eq!(get_geometry(report, "Virtual-1").unwrap(), (1366, 0));
}

#[test]
fn geometry_of_virtual_output() {
    assert_eq!(get_geometry(REPORT, "Virtual-1-1").unwrap(), (1366, 0));
    assert_eq!(get_geometry(REPORT, "eDP-1").unwrap(), (0, 0));
}

#[test]
fn geometry_words_from_comments() {
    assert_eq!(word_position_exec(&chars("1024x768+1366+0")), Some((1366, 0)));
    assert_eq!(word_position_exec(&chars("1024x768-1024+0")), Some((-1024, 0)));
    assert_eq!(word_position_exec(&chars("1024x768+0-768")), Some((0, -768)));
}

#[test]
fn geometry_word_rejects() {
    assert_eq!(word_position_exec(&chars("axis")), None);
    assert_eq!(word_position_exec(&chars("x")), None);
    assert_eq!(word_position_exec(&chars("1024x768+5")), None);
    assert_eq!(word_position_exec(&chars("1024x768+40000+0")), None);
    assert_eq!(word_position_exec(&chars("1024x768+-0")), None);
}

#[test]
fn geometry_missing() {
    let report = "Virtual-1 connected (normal left inverted right x axis y axis)\n";
    match get_geometry(report, "Virtual-1") {
        Err(WasdError::GeometryNotFound { output }) => assert_eq!(output, "Virtual-1"),
        other => panic!("unexpected {:?}", other),
    }
    let err = get_geometry(report, "Virtual-1").unwrap_err();
    assert_eq!(err.message(), "Could not find geometry for Virtual-1");
}

#[test]
fn geometry_skips_lines_without_position() {
    let report = "Virtual-1 connected (normal)\nVirtual-1 connected 800x600+10-20\n";
    assert_eq!(get_geometry(report, "Virtual-1").unwrap(), (10, -20));
}

#[test]
fn mode_and_flags() {
    assert_eq!(mode_name(1024, 768), "1024x768");
    assert_eq!(mode_name(0, 65535), "0x65535");
    assert_eq!(placement_flag(Direction::Left), "--left-of");
    assert_eq!(placement_flag(Direction::Right), "--right-of");
    assert_eq!(placement_flag(Direction::Top), "--above");
    assert_eq!(placement_flag(Direction::Bottom), "--below");
}

#[test]
fn configure_arguments() {
    let args = configure_args(1366, 768, Direction::Bottom, "Virtual-1", "eDP-1");
    assert_eq!(args, vec!["--output", "Virtual-1", "--mode", "1366x768", "--below", "eDP-1"]);
}

#[test]
fn cleanup_arguments() {
    assert_eq!(cleanup_args("Virtual-1"), vec!["--output", "Virtual-1", "--off"]);
}

#[test]
fn workspace_move_command() {
    assert_eq!(workspace_command(10, "Virtual-1"), "workspace 10; move workspace to output Virtual-1");
    assert_eq!(workspace_command(4294967295, "X"), "workspace 4294967295; move workspace to output X");
}

#[test]
fn error_messages() {
    assert_eq!(WasdError::InvalidRotation.message(), "rotation must be 0, 90, 180, or 270");
    assert_eq!(WasdError::VirtualOutputNotFound.message(), "Could not find virtual output");
    assert_eq!(WasdError::PhysicalDisplayNotFound.message(), "Could not find physical display");
    assert_eq!(WasdError::XrandrFailed.message(), "xrandr failed");
    assert_eq!(WasdError::DisableFailed.message(), "Failed to disable virtual display");
    assert_eq!(WasdError::MoveWorkspaceFailed.message(), "Failed to move workspace");
}
