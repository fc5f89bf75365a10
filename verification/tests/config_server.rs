use wasd::config::{Config, Direction, DisplayConfig, ServerConfig, DEFAULT_CONFIG};
use wasd::error::WasdError;
use wasd::server::{
    capture_step, frame_delay, render_index, socket_step, CaptureAction, CaptureEvent, SocketAction,
    SocketEvent,
};

fn config(rotation: i32) -> Config {
    Config {
        display: DisplayConfig {
            width: 1024,
            height: 768,
            direction: Direction::Right,
            rotation,
            workspace: 10,
            fps: 30,
        },
        server: ServerConfig { port: 8080 },
    }
}

#[test]
fn quarter_turn_rotations_accepted() {
    for r in [0, 90, 180, 270] {
        assert_eq!(config(r).validate().unwrap(), config(r));
    }
}

#[test]
fn other_rotations_rejected() {
    for r in [-90, 1, 45, 360, i32::MIN, i32::MAX] {
        assert!(matches!(config(r).validate(), Err(WasdError::InvalidRotation)));
    }
}

#[test]
fn default_config_is_valid() {
    let table: toml::Table = toml::from_str(DEFAULT_CONFIG).unwrap();
    let display = table["display"].as_table().unwrap();
    assert_eq!(display["width"].as_integer(), Some(1024));
    assert_eq!(display["height"].as_integer(), Some(768));
    assert_eq!(display["direction"].as_str(), Some("right"));
    assert_eq!(display["rotation"].as_integer(), Some(90));
    assert_eq!(display["workspace"].as_integer(), Some(10));
    assert_eq!(display["fps"].as_integer(), Some(30));
    assert_eq!(table["server"].as_table().unwrap()["port"].as_integer(), Some(8080));
    assert!(config(90).validate().is_ok());
}

#[test]
fn page_gets_rotation() {
    assert_eq!(render_index("rotate(__ROTATION__deg)", 90), "rotate(90deg)");
    assert_eq!(render_index("__ROTATION__/__ROTATION__", -270), "-270/-270");
    assert_eq!(render_index("no placeholder", 180), "no placeholder");
}

#[test]
fn pacing() {
    assert_eq!(frame_delay(33_333_333, 10_000_000), Some(23_333_333));
    assert_eq!(frame_delay(33_333_333, 33_333_333), None);
    assert_eq!(frame_delay(33_333_333, 50_000_000), None);
}

#[test]
fn socket_decisions() {
    assert_eq!(socket_step(SocketEvent::FrameReady), SocketAction::Send);
    assert_eq!(socket_step(SocketEvent::Lagged), SocketAction::Receive);
    assert_eq!(socket_step(SocketEvent::Sent), SocketAction::Receive);
    assert_eq!(socket_step(SocketEvent::Closed), SocketAction::Stop { disconnected: false });
    assert_eq!(socket_step(SocketEvent::SendFailed), SocketAction::Stop { disconnected: true });
}

#[test]
fn capture_loop_decisions() {
    let t = 33_333_333u128;
    assert_eq!(capture_step(CaptureEvent::StopRequested, t), CaptureAction::Stop);
    assert_eq!(capture_step(CaptureEvent::CaptureFailed, t), CaptureAction::Stop);
    assert_eq!(capture_step(CaptureEvent::EncodeFailed, t), CaptureAction::Stop);
    assert_eq!(
        capture_step(CaptureEvent::FrameSent { elapsed: 3_333_333 }, t),
        CaptureAction::Continue { delay: Some(30_000_000) }
    );
    assert_eq!(
        capture_step(CaptureEvent::FrameSent { elapsed: 40_000_000 }, t),
        CaptureAction::Continue { delay: None }
    );
}
