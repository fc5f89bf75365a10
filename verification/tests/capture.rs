use wasd::capture::{frame_size, CursorImage, X11Capture};

fn image(serial: u32, x: i16, y: i16, width: u16, height: u16, pixels: Vec<u32>) -> CursorImage {
    CursorImage { x, y, width, height, xhot: 0, yhot: 0, cursor_serial: serial, pixels }
}

#[test]
fn new_capture_is_black() {
    let c = X11Capture::new(10, 20, 3, 2);
    assert_eq!(c.width, 3);
    assert_eq!(c.height, 2);
    let mut c = c;
    let frame = c.capture(&[0u8; 24], image(1, 0, 0, 0, 0, vec![]));
    assert_eq!(frame, &[0u8; 24][..]);
}

#[test]
fn opaque_cursor_pixel_replaces_colour() {
    let mut c = X11Capture::new(0, 0, 2, 2);
    let frame = vec![9u8; 16];
    let out = c.capture(&frame, image(1, 1, 1, 1, 1, vec![0xff112233])).to_vec();
    // Pixel (1, 1) is bytes 12..16: B, G, R, X.
    assert_eq!(&out[12..16], &[0x33, 0x22, 0x11, 9]);
    assert_eq!(&out[0..12], &[9u8; 12][..]);
}

#[test]
fn transparent_cursor_pixel_leaves_frame() {
    let mut c = X11Capture::new(0, 0, 2, 2);
    let frame: Vec<u8> = (0..16).collect();
    let out = c.capture(&frame, image(1, 0, 0, 2, 1, vec![0x00ffffff, 0x00123456])).to_vec();
    assert_eq!(out, frame);
}

#[test]
fn half_transparent_pixel_blends() {
    let mut c = X11Capture::new(0, 0, 1, 1);
    let out = c.capture(&[100, 200, 0, 7], image(1, 0, 0, 1, 1, vec![0x80_ff_00_ff])).to_vec();
    // b: (255*128 + 100*127)/255, g: (0*128 + 200*127)/255, r: (255*128 + 0)/255
    assert_eq!(out, vec![((255 * 128 + 100 * 127) / 255) as u8, ((200 * 127) / 255) as u8, ((255 * 128) / 255) as u8, 7]);
}

#[test]
fn cursor_relative_to_capture_and_hotspot() {
    // Capture rectangle starts at (100, 50); cursor at (102, 51) with hotspot (1, 1)
    // puts the cursor's top-left pixel at (1, 0) of the capture.
    let mut c = X11Capture::new(100, 50, 3, 2);
    let img = CursorImage {
        x: 102,
        y: 51,
        width: 1,
        height: 1,
        xhot: 1,
        yhot: 1,
        cursor_serial: 5,
        pixels: vec![0xff0000ff],
    };
    let out = c.capture(&[0u8; 24], img).to_vec();
    let mut expected = vec![0u8; 24];
    expected[4] = 0xff;
    assert_eq!(out, expected);
}

#[test]
fn cursor_clipped_at_edges() {
    let mut c = X11Capture::new(0, 0, 2, 1);
    // 2x2 cursor at (-1, 0): only its pixel (1, 0) lands on capture pixel (0, 0).
    let out = c
        .capture(&[0u8; 8], image(1, -1, 0, 2, 2, vec![0xff010101, 0xff020202, 0xff030303, 0xff040404]))
        .to_vec();
    assert_eq!(out, vec![2, 2, 2, 0, 0, 0, 0, 0]);
}

#[test]
fn same_serial_only_moves_cursor() {
    let mut c = X11Capture::new(0, 0, 2, 1);
    c.capture(&[0u8; 8], image(7, 0, 0, 1, 1, vec![0xff0a0b0c]));
    // Same serial: the new pixels are ignored, only the position changes.
    let out = c.capture(&[0u8; 8], image(7, 1, 0, 1, 1, vec![0xffffffff])).to_vec();
    assert_eq!(out, vec![0, 0, 0, 0, 0x0c, 0x0b, 0x0a, 0]);
    // New serial: the new shape is taken.
    let out = c.capture(&[0u8; 8], image(8, 0, 0, 1, 1, vec![0xffffffff])).to_vec();
    assert_eq!(out, vec![0xff, 0xff, 0xff, 0, 0, 0, 0, 0]);
}

#[test]
fn first_image_with_initial_serial_is_ignored() {
    let mut c = X11Capture::new(0, 0, 1, 1);
    let out = c.capture(&[1, 2, 3, 4], image(u32::MAX, 0, 0, 1, 1, vec![0xffffffff])).to_vec();
    assert_eq!(out, vec![1, 2, 3, 4]);
}

#[test]
fn draw_without_cursor_is_identity() {
    let mut c = X11Capture::new(0, 0, 1, 1);
    c.load_frame(&[5, 6, 7, 8]);
    c.draw_cursor_inplace();
    let out = c.capture(&[5, 6, 7, 8], image(u32::MAX, 0, 0, 0, 0, vec![])).to_vec();
    assert_eq!(out, vec![5, 6, 7, 8]);
}

#[test]
fn frame_sizes() {
    assert_eq!(frame_size(1024, 768), Some(1024 * 768 * 4));
    assert_eq!(frame_size(0, 100), Some(0));
    assert_eq!(frame_size(65535, 65535), Some(65535usize * 65535 * 4));
}
