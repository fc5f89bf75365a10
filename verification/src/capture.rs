//! The capture rectangle's frame buffer and the mouse cursor composited
//! onto it.
//!
//! Frames arrive from the X server as BGRX bytes, four per pixel, row by
//! row. The cursor arrives from XFixes as ARGB pixels, one `u32` each; its
//! hotspot `(xhot, yhot)` is the pixel that sits at the pointer position.

use vstd::arithmetic::div_mod::{
    lemma_div_pos_is_pos, lemma_fundamental_div_mod, lemma_fundamental_div_mod_converse,
    lemma_mod_pos_bound,
};
use vstd::arithmetic::mul::{lemma_mul_inequality, lemma_mul_is_commutative};
use vstd::prelude::*;

verus! {

/// A cursor image as XFixes `GetCursorImage` reports it.
pub struct CursorImage {
    /// Pointer position on the root window.
    pub x: i16,
    pub y: i16,
    pub width: u16,
    pub height: u16,
    pub xhot: u16,
    pub yhot: u16,
    /// Changes whenever the cursor's shape changes.
    pub cursor_serial: u32,
    /// ARGB pixels, row by row.
    pub pixels: Vec<u32>,
}

/// The cursor as last fetched.
struct Cursor {
    x: i16,
    y: i16,
    width: u16,
    height: u16,
    xhot: u16,
    yhot: u16,
    pixels: Vec<u32>,
}

/// What is known of the cursor.
pub struct CursorView {
    pub x: i16,
    pub y: i16,
    pub width: u16,
    pub height: u16,
    pub xhot: u16,
    pub yhot: u16,
    pub pixels: Seq<u32>,
}

/// What is known of a capture.
pub struct CaptureView {
    /// Top-left corner of the capture rectangle on the root window.
    pub x: i16,
    pub y: i16,
    pub width: u16,
    pub height: u16,
    /// BGRX bytes of the current frame.
    pub frame: Seq<u8>,
    pub cursor: Option<CursorView>,
    pub cursor_serial: u32,
}

/// The frame buffer of a capture rectangle and the cursor drawn onto it.
pub struct X11Capture {
    x: i16,
    y: i16,
    pub width: u16,
    pub height: u16,
    size: usize,
    frame: Vec<u8>,
    cursor: Option<Cursor>,
    cursor_serial: u32,
}

/// The view of a cursor image as the cursor it describes.
pub open spec fn image_cursor(image: CursorImage) -> CursorView {
    CursorView {
        x: image.x,
        y: image.y,
        width: image.width,
        height: image.height,
        xhot: image.xhot,
        yhot: image.yhot,
        pixels: image.pixels@,
    }
}

spec fn cursor_view(c: Cursor) -> CursorView {
    CursorView {
        x: c.x,
        y: c.y,
        width: c.width,
        height: c.height,
        xhot: c.xhot,
        yhot: c.yhot,
        pixels: c.pixels@,
    }
}

impl View for X11Capture {
    type V = CaptureView;

    closed spec fn view(&self) -> CaptureView {
        CaptureView {
            x: self.x,
            y: self.y,
            width: self.width,
            height: self.height,
            frame: self.frame@,
            cursor: match self.cursor {
                Some(c) => Some(cursor_view(c)),
                None => None,
            },
            cursor_serial: self.cursor_serial,
        }
    }
}

/// A cursor whose pixels fill its rectangle.
pub open spec fn cursor_wf(c: CursorView) -> bool {
    c.pixels.len() == c.width * c.height
}

/// A capture whose frame holds four bytes per pixel of its rectangle and
/// whose cursor, if any, is whole.
pub open spec fn capture_wf(v: CaptureView) -> bool {
    &&& v.frame.len() == v.width * v.height * 4
    &&& v.cursor matches Some(c) ==> cursor_wf(c)
}

/// The cursor after an update with `image`: a new shape (a serial that
/// differs from the last) replaces the cursor; the same shape only moves it.
pub open spec fn updated_cursor(v: CaptureView, image: CursorView, serial: u32) -> Option<CursorView> {
    if serial != v.cursor_serial {
        Some(image)
    } else {
        match v.cursor {
            Some(c) => Some(CursorView { x: image.x, y: image.y, ..c }),
            None => None,
        }
    }
}

/// Alpha of an ARGB pixel: bits 24..32.
pub open spec fn alpha_of(pixel: u32) -> int {
    (pixel as int / 0x1000000) % 256
}

/// Colour channel `c` of an ARGB pixel in BGRX byte order: blue (`c == 0`),
/// green (`c == 1`) or red (`c == 2`).
pub open spec fn channel_of(pixel: u32, c: int) -> int {
    if c == 0 {
        pixel as int % 256
    } else if c == 1 {
        (pixel as int / 0x100) % 256
    } else {
        (pixel as int / 0x10000) % 256
    }
}

/// A colour channel `src` drawn with opacity `alpha` (out of 255) over `dst`.
pub open spec fn blend(src: int, dst: int, alpha: int) -> int {
    (src * alpha + dst * (255 - alpha)) / 255
}

/// Column, relative to the capture rectangle, of the cursor's top-left pixel.
pub open spec fn cursor_left(v: CaptureView, c: CursorView) -> int {
    c.x - v.x - c.xhot
}

/// Row, relative to the capture rectangle, of the cursor's top-left pixel.
pub open spec fn cursor_top(v: CaptureView, c: CursorView) -> int {
    c.y - v.y - c.yhot
}

/// Column of the cursor image that frame byte `k` lies under.
pub open spec fn cursor_col(v: CaptureView, c: CursorView, k: int) -> int {
    (k / 4) % (v.width as int) - cursor_left(v, c)
}

/// Row of the cursor image that frame byte `k` lies under.
pub open spec fn cursor_row(v: CaptureView, c: CursorView, k: int) -> int {
    (k / 4) / (v.width as int) - cursor_top(v, c)
}

/// Frame byte `k` once the cursor is drawn: a blue, green or red byte under
/// a cursor pixel that is not fully transparent is that pixel's channel
/// blended over the byte; every other byte is unchanged.
pub open spec fn composited_byte(v: CaptureView, k: int) -> u8 {
    let old = v.frame[k];
    match v.cursor {
        None => old,
        Some(c) => {
            let col = cursor_col(v, c, k);
            let row = cursor_row(v, c, k);
            if k % 4 < 3 && 0 <= col < c.width && 0 <= row < c.height {
                let pixel = c.pixels[row * c.width + col];
                if alpha_of(pixel) == 0 {
                    old
                } else {
                    blend(channel_of(pixel, k % 4), old as int, alpha_of(pixel)) as u8
                }
            } else {
                old
            }
        },
    }
}

/// The frame with the cursor drawn onto it.
pub open spec fn composited(v: CaptureView) -> Seq<u8> {
    Seq::new(v.frame.len(), |k: int| composited_byte(v, k))
}

/// Byte `k` of the frame lies under a cursor pixel already drawn, when the
/// cursor is drawn row by row up to pixel `(col, row)`.
spec fn drawn_before(v: CaptureView, c: CursorView, k: int, col: int, row: int) -> bool {
    cursor_row(v, c, k) < row || (cursor_row(v, c, k) == row && cursor_col(v, c, k) < col)
}

proof fn lemma_compose(dx: int, dy: int, ch: int, w: int)
    requires
        0 <= dx < w,
        0 <= dy,
        0 <= ch < 4,
    ensures
        ((dy * w + dx) * 4 + ch) / 4 == dy * w + dx,
        ((dy * w + dx) * 4 + ch) % 4 == ch,
        (dy * w + dx) / w == dy,
        (dy * w + dx) % w == dx,
{
    lemma_fundamental_div_mod_converse((dy * w + dx) * 4 + ch, 4, dy * w + dx, ch);
    lemma_fundamental_div_mod_converse(dy * w + dx, w, dy, dx);
}

proof fn lemma_decompose(k: int, w: int)
    requires
        0 <= k,
        w > 0,
    ensures
        k == ((k / 4) / w * w + (k / 4) % w) * 4 + k % 4,
        0 <= k % 4 < 4,
        0 <= (k / 4) % w < w,
        0 <= (k / 4) / w,
{
    lemma_fundamental_div_mod(k, 4);
    lemma_fundamental_div_mod(k / 4, w);
    lemma_mod_pos_bound(k, 4);
    lemma_mod_pos_bound(k / 4, w);
    lemma_div_pos_is_pos(k, 4);
    lemma_div_pos_is_pos(k / 4, w);
    lemma_mul_is_commutative((k / 4) / w, w);
    lemma_mul_is_commutative(k / 4, 4);
}

/// Rows of the frame lie below `height`.
proof fn lemma_row_bound(k: int, w: int, h: int)
    requires
        0 <= k < w * h * 4,
        w > 0,
        h >= 0,
    ensures
        (k / 4) / w < h,
{
    lemma_decompose(k, w);
    if (k / 4) / w >= h {
        lemma_mul_inequality(h, (k / 4) / w, w);
        lemma_mul_is_commutative(h, w);
        assert(k >= (h * w) * 4) by (nonlinear_arith)
            requires
                k == ((k / 4) / w * w + (k / 4) % w) * 4 + k % 4,
                (k / 4) / w * w >= h * w,
                (k / 4) % w >= 0,
                k % 4 >= 0,
        ;
        assert(w * h * 4 == h * w * 4) by (nonlinear_arith);
    }
}

proof fn lemma_pixel_fields(pixel: u32)
    ensures
        (pixel >> 24u32) & 0xffu32 == alpha_of(pixel),
        (pixel >> 16u32) & 0xffu32 == channel_of(pixel, 2),
        (pixel >> 8u32) & 0xffu32 == channel_of(pixel, 1),
        pixel & 0xffu32 == channel_of(pixel, 0),
{
    assert((pixel >> 24u32) & 0xffu32 == (pixel / 0x1000000u32) % 256) by (bit_vector);
    assert((pixel >> 16u32) & 0xffu32 == (pixel / 0x10000u32) % 256) by (bit_vector);
    assert((pixel >> 8u32) & 0xffu32 == (pixel / 0x100u32) % 256) by (bit_vector);
    assert(pixel & 0xffu32 == pixel % 256) by (bit_vector);
}

/// A frame byte under cursor pixel `(col, row)` is one of the four bytes of
/// frame pixel `(col + left, row + top)`, which lies in the rectangle's
/// columns.
proof fn lemma_at_cell(v: CaptureView, c: CursorView, k: int, col: int, row: int)
    requires
        v.width > 0,
        0 <= k,
        cursor_col(v, c, k) == col,
        cursor_row(v, c, k) == row,
    ensures
        0 <= col + cursor_left(v, c) < v.width,
        0 <= row + cursor_top(v, c),
        k == ((row + cursor_top(v, c)) * v.width + (col + cursor_left(v, c))) * 4 + k % 4,
        0 <= k % 4 < 4,
{
    lemma_decompose(k, v.width as int);
}

/// The bytes of frame pixel `(dx, dy)` lie under cursor pixel
/// `(dx - left, dy - top)`.
proof fn lemma_cell_bytes(v: CaptureView, c: CursorView, dx: int, dy: int, ch: int)
    requires
        0 <= dx < v.width,
        0 <= dy,
        0 <= ch < 4,
    ensures
        cursor_col(v, c, (dy * v.width + dx) * 4 + ch) == dx - cursor_left(v, c),
        cursor_row(v, c, (dy * v.width + dx) * 4 + ch) == dy - cursor_top(v, c),
        ((dy * v.width + dx) * 4 + ch) % 4 == ch,
{
    lemma_compose(dx, dy, ch, v.width as int);
}

/// Drawing cursor pixel `(col, row)` extends the drawn part of the frame by
/// that pixel.
proof fn lemma_draw_step(
    v: CaptureView,
    c: CursorView,
    before: Seq<u8>,
    after: Seq<u8>,
    col: int,
    row: int,
)
    requires
        v.cursor == Some(c),
        before.len() == v.frame.len(),
        after.len() == v.frame.len(),
        forall|k: int|
            0 <= k < v.frame.len() ==> #[trigger] before[k] == if drawn_before(v, c, k, col, row) {
                composited_byte(v, k)
            } else {
                v.frame[k]
            },
        forall|k: int|
            0 <= k < v.frame.len() && !(cursor_col(v, c, k) == col && cursor_row(v, c, k) == row
                && k % 4 < 3) ==> #[trigger] after[k] == before[k],
        forall|k: int|
            0 <= k < v.frame.len() && cursor_col(v, c, k) == col && cursor_row(v, c, k) == row
                && k % 4 < 3 ==> #[trigger] after[k] == composited_byte(v, k),
    ensures
        forall|k: int|
            0 <= k < v.frame.len() ==> #[trigger] after[k] == if drawn_before(v, c, k, col + 1, row) {
                composited_byte(v, k)
            } else {
                v.frame[k]
            },
{
    assert forall|k: int| 0 <= k < v.frame.len() implies #[trigger] after[k] == if drawn_before(
        v,
        c,
        k,
        col + 1,
        row,
    ) {
        composited_byte(v, k)
    } else {
        v.frame[k]
    } by {
        if cursor_col(v, c, k) == col && cursor_row(v, c, k) == row && k % 4 < 3 {
        } else {
            assert(before[k] == if drawn_before(v, c, k, col, row) {
                composited_byte(v, k)
            } else {
                v.frame[k]
            });
        }
    }
}

proof fn lemma_blend_bounds(src: int, dst: int, alpha: int)
    requires
        0 <= src < 256,
        0 <= dst < 256,
        0 <= alpha < 256,
    ensures
        0 <= src * alpha + dst * (255 - alpha) <= 255 * 255,
        0 <= blend(src, dst, alpha) < 256,
{
    assert(0 <= src * alpha + dst * (255 - alpha) <= 255 * 255) by (nonlinear_arith)
        requires
            0 <= src < 256,
            0 <= dst < 256,
            0 <= alpha < 256,
    ;
}

/// The number of bytes of a BGRX frame of `width`x`height` pixels, if it
/// fits in a `usize`.
pub fn frame_size(width: u16, height: u16) -> (size: Option<usize>)
    ensures
        size matches Some(n) ==> n == width * height * 4,
        size is None <==> width * height * 4 > usize::MAX,
{
    assert(width * height <= 0xffff * 0xffff) by (nonlinear_arith)
        requires
            width <= 0xffff,
            height <= 0xffff,
    ;
    let pixels: u64 = width as u64 * height as u64;
    let bytes: u64 = pixels * 4;
    if bytes <= usize::MAX as u64 {
        Some(bytes as usize)
    } else {
        None
    }
}

impl X11Capture {
    /// The capture holds a frame of the size it was made with.
    pub closed spec fn wf(&self) -> bool {
        &&& capture_wf(self@)
        &&& self.size == self.frame@.len()
    }

    /// A capture of the `width`x`height` rectangle whose top-left corner is
    /// `(x, y)`, with a black frame and no cursor yet.
    pub fn new(x: i16, y: i16, width: u16, height: u16) -> (c: Self)
        requires
            width * height * 4 <= usize::MAX,
        ensures
            c.wf(),
            c@.x == x,
            c@.y == y,
            c@.width == width,
            c@.height == height,
            c@.frame == Seq::new((width * height * 4) as nat, |i: int| 0u8),
            c@.cursor is None,
            c@.cursor_serial == u32::MAX,
    {
        let size = width as usize * height as usize * 4;
        let mut frame: Vec<u8> = Vec::new();
        for i in 0..size
            invariant
                frame@ == Seq::new(i as nat, |j: int| 0u8),
        {
            frame.push(0u8);
            assert(frame@ =~= Seq::new((i + 1) as nat, |j: int| 0u8));
        }
        X11Capture {
            x,
            y,
            width,
            height,
            size,
            frame,
            cursor: None,
            cursor_serial: u32::MAX,
        }
    }

    /// Takes in a freshly fetched cursor image. A cursor of a new shape
    /// replaces the stored one; one of the same shape only moves it.
    pub fn update_cursor(&mut self, image: CursorImage)
        requires
            old(self).wf(),
            image.pixels@.len() == image.width * image.height,
        ensures
            final(self).wf(),
            final(self)@ == (CaptureView {
                cursor: updated_cursor(old(self)@, image_cursor(image), image.cursor_serial),
                cursor_serial: image.cursor_serial,
                ..old(self)@
            }),
    {
        if image.cursor_serial != self.cursor_serial {
            self.cursor_serial = image.cursor_serial;
            self.cursor = Some(Cursor {
                x: image.x,
                y: image.y,
                width: image.width,
                height: image.height,
                xhot: image.xhot,
                yhot: image.yhot,
                pixels: image.pixels,
            });
        } else if let Some(c) = &mut self.cursor {
            c.x = image.x;
            c.y = image.y;
        }
    }

    /// Draws the cursor onto the frame, blending each cursor pixel over the
    /// frame pixel under it by the cursor pixel's alpha. Cursor pixels
    /// outside the capture rectangle, and fully transparent ones, leave the
    /// frame as it is; the X byte of every frame pixel is left as it is.
    pub fn draw_cursor_inplace(&mut self)
        requires
            old(self).wf(),
        ensures
            final(self).wf(),
            final(self)@ == (CaptureView { frame: composited(old(self)@), ..old(self)@ }),
    {
        let ghost v = self@;
        let cursor = match &self.cursor {
            Some(cursor) => cursor,
            None => {
                assert(composited(v) =~= v.frame);
                return;
            },
        };
        let ghost c = cursor_view(*cursor);
        assert(v.cursor == Some(c));
        let cursor_x: i64 = cursor.x as i64 - self.x as i64 - cursor.xhot as i64;
        let cursor_y: i64 = cursor.y as i64 - self.y as i64 - cursor.yhot as i64;
        let cap_w: i64 = self.width as i64;
        let cap_h: i64 = self.height as i64;
        let cur_w: i64 = cursor.width as i64;
        let cur_h: i64 = cursor.height as i64;
        let ghost len = v.frame.len();
        if cap_w == 0 {
            assert(len == 0) by {
                assert(v.width * v.height * 4 == 0) by (nonlinear_arith)
                    requires
                        v.width == 0,
                ;
            }
            assert(composited(v) =~= v.frame);
            return;
        }
        assert(c.pixels.len() == cur_w * cur_h);
        let mut cy: i64 = 0;
        while cy < cur_h
            invariant
                self.wf(),
                self@ == (CaptureView { frame: self.frame@, ..v }),
                self.cursor == Some(*cursor),
                c == cursor_view(*cursor),
                v.cursor == Some(c),
                capture_wf(v),
                len == v.frame.len(),
                cursor_x == cursor_left(v, c),
                cursor_y == cursor_top(v, c),
                cap_w == v.width,
                cap_h == v.height,
                cap_w > 0,
                cur_w == c.width,
                cur_h == c.height,
                c.pixels.len() == cur_w * cur_h,
                0 <= cy <= cur_h,
                forall|k: int|
                    0 <= k < len ==> #[trigger] self.frame@[k] == if drawn_before(v, c, k, 0, cy as int) {
                        composited_byte(v, k)
                    } else {
                        v.frame[k]
                    },
            decreases cur_h - cy,
        {
            let dst_y = cursor_y + cy;
            let mut cx: i64 = 0;
            while cx < cur_w
                invariant
                    self.wf(),
                    self@ == (CaptureView { frame: self.frame@, ..v }),
                    self.cursor == Some(*cursor),
                    c == cursor_view(*cursor),
                    v.cursor == Some(c),
                    capture_wf(v),
                    len == v.frame.len(),
                    cursor_x == cursor_left(v, c),
                    cursor_y == cursor_top(v, c),
                    cap_w == v.width,
                    cap_h == v.height,
                    cap_w > 0,
                    cur_w == c.width,
                    cur_h == c.height,
                    c.pixels.len() == cur_w * cur_h,
                    0 <= cy < cur_h,
                    dst_y == cursor_y + cy,
                    0 <= cx <= cur_w,
                    forall|k: int|
                        0 <= k < len ==> #[trigger] self.frame@[k] == if drawn_before(
                            v,
                            c,
                            k,
                            cx as int,
                            cy as int,
                        ) {
                            composited_byte(v, k)
                        } else {
                            v.frame[k]
                        },
                decreases cur_w - cx,
            {
                let ghost before = self.frame@;
                let dst_x = cursor_x + cx;
                if 0 <= dst_x && dst_x < cap_w && 0 <= dst_y && dst_y < cap_h {
                    assert(0 <= cy * cur_w + cx < cur_w * cur_h && cy * cur_w <= 0x1_0000_0000)
                        by (nonlinear_arith)
                        requires
                            0 <= cy < cur_h,
                            0 <= cx < cur_w,
                            cur_w <= 0xffff,
                            cur_h <= 0xffff,
                    ;
                    assert(cursor.pixels@.len() == cur_w * cur_h);
                    let pixel_count = cursor.pixels.len();
                    assert(cy * cur_w + cx < pixel_count);
                    let src_index = (cy * cur_w + cx) as usize;
                    let pixel = cursor.pixels[src_index];
                    assert(src_index as int == cy * cur_w + cx);
                    assert(pixel == c.pixels[src_index as int]);
                    proof {
                        lemma_pixel_fields(pixel);
                    }
                    let a = (pixel >> 24u32) & 0xffu32;
                    if a != 0 {
                        let r = (pixel >> 16u32) & 0xffu32;
                        let g = (pixel >> 8u32) & 0xffu32;
                        let b = pixel & 0xffu32;
                        assert((dst_y * cap_w + dst_x) * 4 + 3 < cap_w * cap_h * 4
                            && 0 <= dst_y * cap_w + dst_x
                            && dst_y * cap_w <= 0x1_0000_0000) by (nonlinear_arith)
                            requires
                                0 <= dst_y < cap_h,
                                0 <= dst_x < cap_w,
                                cap_w <= 0xffff,
                                cap_h <= 0xffff,
                        ;
                        assert(cap_w * cap_h * 4 == len);
                        let dst_index = ((dst_y * cap_w + dst_x) * 4) as usize;
                        let ghost base = dst_index as int;
                        proof {
                            lemma_cell_bytes(v, c, dst_x as int, dst_y as int, 0);
                            lemma_cell_bytes(v, c, dst_x as int, dst_y as int, 1);
                            lemma_cell_bytes(v, c, dst_x as int, dst_y as int, 2);
                            assert(before[base] == v.frame[base]);
                            assert(before[base + 1] == v.frame[base + 1]);
                            assert(before[base + 2] == v.frame[base + 2]);
                        }
                        if a == 255 {
                            self.frame.set(dst_index, b as u8);
                            self.frame.set(dst_index + 1, g as u8);
                            self.frame.set(dst_index + 2, r as u8);
                            proof {
                                assert(blend(b as int, v.frame[base] as int, 255) == b) by (nonlinear_arith);
                                assert(blend(g as int, v.frame[base + 1] as int, 255) == g) by (nonlinear_arith);
                                assert(blend(r as int, v.frame[base + 2] as int, 255) == r) by (nonlinear_arith);
                            }
                        } else {
                            let inv_a = 255 - a;
                            let old_b = self.frame[dst_index] as u32;
                            let old_g = self.frame[dst_index + 1] as u32;
                            let old_r = self.frame[dst_index + 2] as u32;
                            proof {
                                lemma_blend_bounds(b as int, old_b as int, a as int);
                                lemma_blend_bounds(g as int, old_g as int, a as int);
                                lemma_blend_bounds(r as int, old_r as int, a as int);
                            }
                            self.frame.set(dst_index, ((b * a + old_b * inv_a) / 255) as u8);
                            self.frame.set(dst_index + 1, ((g * a + old_g * inv_a) / 255) as u8);
                            self.frame.set(dst_index + 2, ((r * a + old_r * inv_a) / 255) as u8);
                        }
                        proof {
                            let after = self.frame@;
                            assert forall|k: int|
                                0 <= k < len && cursor_col(v, c, k) == cx && cursor_row(v, c, k) == cy
                                    implies k == base + k % 4 && 0 <= k % 4 < 4 by {
                                lemma_at_cell(v, c, k, cx as int, cy as int);
                            }
                            assert forall|k: int|
                                0 <= k < len && cursor_col(v, c, k) == cx && cursor_row(v, c, k) == cy
                                    && k % 4 < 3 implies #[trigger] after[k] == composited_byte(v, k) by {
                                lemma_at_cell(v, c, k, cx as int, cy as int);
                            }
                            assert forall|k: int|
                                0 <= k < len && !(cursor_col(v, c, k) == cx && cursor_row(v, c, k) == cy
                                    && k % 4 < 3) implies #[trigger] after[k] == before[k] by {
                                if k == base || k == base + 1 || k == base + 2 {
                                    lemma_cell_bytes(v, c, dst_x as int, dst_y as int, k - base);
                                }
                            }
                            lemma_draw_step(v, c, before, after, cx as int, cy as int);
                        }
                    } else {
                        proof {
                            assert forall|k: int|
                                0 <= k < len && cursor_col(v, c, k) == cx && cursor_row(v, c, k) == cy
                                    && k % 4 < 3 implies #[trigger] before[k] == composited_byte(v, k) by {
                                assert(c.pixels[cy * cur_w + cx] == pixel);
                                assert(before[k] == self.frame@[k]);
                            }
                            lemma_draw_step(v, c, before, before, cx as int, cy as int);
                        }
                    }
                } else {
                    proof {
                        assert forall|k: int|
                            0 <= k < len && cursor_col(v, c, k) == cx && cursor_row(v, c, k) == cy
                                implies false by {
                            lemma_at_cell(v, c, k, cx as int, cy as int);
                            lemma_row_bound(k, v.width as int, v.height as int);
                        }
                        lemma_draw_step(v, c, before, before, cx as int, cy as int);
                    }
                }
                cx = cx + 1;
            }
            proof {
                assert forall|k: int| 0 <= k < len implies #[trigger] self.frame@[k] == if drawn_before(
                    v,
                    c,
                    k,
                    0,
                    cy + 1,
                ) {
                    composited_byte(v, k)
                } else {
                    v.frame[k]
                } by {
                    assert(self.frame@[k] == if drawn_before(v, c, k, cur_w as int, cy as int) {
                        composited_byte(v, k)
                    } else {
                        v.frame[k]
                    });
                }
            }
            cy = cy + 1;
        }
        proof {
            assert forall|k: int| 0 <= k < len implies #[trigger] self.frame@[k] == composited_byte(v, k) by {
                assert(self.frame@[k] == if drawn_before(v, c, k, 0, cur_h as int) {
                    composited_byte(v, k)
                } else {
                    v.frame[k]
                });
            }
            assert(self.frame@ =~= composited(v));
        }
    }

    /// One captured frame: `pixels`, freshly read from the X server, with
    /// the cursor of `image` drawn on top.
    pub fn capture(&mut self, pixels: &[u8], image: CursorImage) -> (frame: &[u8])
        requires
            old(self).wf(),
            pixels@.len() == old(self)@.frame.len(),
            image.pixels@.len() == image.width * image.height,
        ensures
            final(self).wf(),
            final(self)@ == (CaptureView {
                frame: composited(CaptureView {
                    frame: pixels@,
                    cursor: updated_cursor(old(self)@, image_cursor(image), image.cursor_serial),
                    cursor_serial: image.cursor_serial,
                    ..old(self)@
                }),
                cursor: updated_cursor(old(self)@, image_cursor(image), image.cursor_serial),
                cursor_serial: image.cursor_serial,
                ..old(self)@
            }),
            frame@ == final(self)@.frame,
    {
        self.load_frame(pixels);
        self.update_cursor(image);
        self.draw_cursor_inplace();
        self.frame.as_slice()
    }

    /// Replaces the frame with freshly captured bytes.
    pub fn load_frame(&mut self, pixels: &[u8])
        requires
            old(self).wf(),
            pixels@.len() == old(self)@.frame.len(),
        ensures
            final(self).wf(),
            final(self)@ == (CaptureView { frame: pixels@, ..old(self)@ }),
    {
        let n = self.frame.len();
        for i in 0..n
            invariant
                n == self.frame.len(),
                pixels@.len() == n,
                self.wf(),
                self@ == (CaptureView { frame: self.frame@, ..old(self)@ }),
                forall|j: int| 0 <= j < i ==> self.frame@[j] == pixels@[j],
        {
            self.frame.set(i, pixels[i]);
        }
        assert(self.frame@ =~= pixels@);
    }
}

// ---------------------------------------------------------------------------
// Laws
// ---------------------------------------------------------------------------

/// With no cursor fetched yet, drawing the cursor leaves the frame as it is.
pub proof fn law_no_cursor_no_change(v: CaptureView)
    requires
        v.cursor is None,
    ensures
        composited(v) == v.frame,
{
    assert(composited(v) =~= v.frame);
}

/// The padding byte of every BGRX pixel is never touched by drawing the
/// cursor.
pub proof fn law_padding_byte_unchanged(v: CaptureView, k: int)
    requires
        0 <= k < v.frame.len(),
        k % 4 == 3,
    ensures
        composited(v)[k] == v.frame[k],
{
}

/// Frame bytes that no cursor pixel covers keep their value.
pub proof fn law_outside_cursor_unchanged(v: CaptureView, c: CursorView, k: int)
    requires
        v.cursor == Some(c),
        0 <= k < v.frame.len(),
        !(0 <= cursor_col(v, c, k) < c.width && 0 <= cursor_row(v, c, k) < c.height),
    ensures
        composited(v)[k] == v.frame[k],
{
}

/// A fully opaque cursor pixel replaces the colour under it, and a fully
/// transparent one leaves it.
pub proof fn law_opaque_and_transparent(v: CaptureView, c: CursorView, k: int)
    requires
        v.cursor == Some(c),
        0 <= k < v.frame.len(),
        k % 4 < 3,
        0 <= cursor_col(v, c, k) < c.width,
        0 <= cursor_row(v, c, k) < c.height,
    ensures
        ({
            let pixel = c.pixels[cursor_row(v, c, k) * c.width + cursor_col(v, c, k)];
            &&& alpha_of(pixel) == 255 ==> composited(v)[k] == channel_of(pixel, k % 4)
            &&& alpha_of(pixel) == 0 ==> composited(v)[k] == v.frame[k]
        }),
{
    let pixel = c.pixels[cursor_row(v, c, k) * c.width + cursor_col(v, c, k)];
    let src = channel_of(pixel, k % 4);
    let dst = v.frame[k] as int;
    assert(0 <= src < 256);
    assert(blend(src, dst, 255) == src) by (nonlinear_arith);
}

/// Every cursor pixel that is not fully transparent is alpha-blended over
/// the frame byte under it: with `a` its alpha (bits 24..32), `src` its
/// channel for that byte (blue bits 0..8, green 8..16, red 16..24) and
/// `dst` the byte before drawing, the drawn byte is
/// `(src * a + dst * (255 - a)) / 255`. A faint pixel thus moves the byte
/// only a fraction `a / 255` of the way towards the cursor's colour.
pub proof fn law_cursor_pixel_alpha_blended(v: CaptureView, c: CursorView, k: int)
    requires
        v.cursor == Some(c),
        0 <= k < v.frame.len(),
        k % 4 < 3,
        0 <= (k / 4) % (v.width as int) - (c.x - v.x - c.xhot) < c.width,
        0 <= (k / 4) / (v.width as int) - (c.y - v.y - c.yhot) < c.height,
    ensures
        ({
            let col = (k / 4) % (v.width as int) - (c.x - v.x - c.xhot);
            let row = (k / 4) / (v.width as int) - (c.y - v.y - c.yhot);
            let pixel = c.pixels[row * c.width + col] as int;
            let a = (pixel / 0x1000000) % 256;
            let src = if k % 4 == 0 {
                pixel % 256
            } else if k % 4 == 1 {
                (pixel / 0x100) % 256
            } else {
                (pixel / 0x10000) % 256
            };
            let dst = v.frame[k] as int;
            &&& a != 0 ==> composited(v)[k] as int == (src * a + dst * (255 - a)) / 255
            &&& a != 0 ==> (composited(v)[k] - dst) * 255 <= (src - dst) * a + 255
            &&& a != 0 ==> (dst - composited(v)[k]) * 255 <= (dst - src) * a + 255
            &&& a == 0 ==> composited(v)[k] == v.frame[k]
        }),
{
    let col = (k / 4) % (v.width as int) - (c.x - v.x - c.xhot);
    let row = (k / 4) / (v.width as int) - (c.y - v.y - c.yhot);
    let pixel = c.pixels[row * c.width + col];
    let src = channel_of(pixel, k % 4);
    let dst = v.frame[k] as int;
    let a = alpha_of(pixel);
    assert(0 <= src < 256 && 0 <= a < 256);
    lemma_blend_bounds(src, dst, a);
    let t = src * a + dst * (255 - a);
    let d = t / 255;
    assert(d * 255 <= t < d * 255 + 255) by (nonlinear_arith)
        requires
            d == t / 255,
            t >= 0,
    ;
    assert(composited(v)[k] == composited_byte(v, k));
    assert(col == cursor_col(v, c, k) && row == cursor_row(v, c, k));
    if a != 0 {
        assert(composited_byte(v, k) == blend(src, dst, a) as u8);
        assert(composited(v)[k] as int == d);
        assert((d - dst) * 255 <= (src - dst) * a + 255 && (dst - d) * 255 <= (dst - src) * a + 255)
            by (nonlinear_arith)
            requires
                d * 255 <= t < d * 255 + 255,
                t == src * a + dst * (255 - a),
        ;
    } else {
        assert(composited(v)[k] == v.frame[k]);
    }
}

/// A drawn byte lies between the frame's byte and the cursor's channel.
pub proof fn law_blend_between(src: int, dst: int, alpha: int)
    requires
        0 <= src < 256,
        0 <= dst < 256,
        0 <= alpha <= 255,
    ensures
        src <= dst ==> src <= blend(src, dst, alpha) <= dst,
        dst <= src ==> dst <= blend(src, dst, alpha) <= src,
{
    assert(src <= dst ==> src * 255 <= src * alpha + dst * (255 - alpha) <= dst * 255)
        by (nonlinear_arith)
        requires
            0 <= alpha <= 255,
    ;
    assert(dst <= src ==> dst * 255 <= src * alpha + dst * (255 - alpha) <= src * 255)
        by (nonlinear_arith)
        requires
            0 <= alpha <= 255,
    ;
    let t = src * alpha + dst * (255 - alpha);
    assert(src <= dst ==> src <= t / 255 <= dst) by (nonlinear_arith)
        requires
            src <= dst ==> src * 255 <= t <= dst * 255,
    ;
    assert(dst <= src ==> dst <= t / 255 <= src) by (nonlinear_arith)
        requires
            dst <= src ==> dst * 255 <= t <= src * 255,
    ;
}

/// A cursor image with the serial already seen only moves the cursor: its
/// shape, hotspot and pixels stay those fetched before.
pub proof fn law_same_serial_moves_only(v: CaptureView, image: CursorView, serial: u32, c: CursorView)
    requires
        serial == v.cursor_serial,
        v.cursor == Some(c),
    ensures
        updated_cursor(v, image, serial) == Some(CursorView { x: image.x, y: image.y, ..c }),
{
}

/// A cursor image with a new serial replaces the cursor entirely.
pub proof fn law_new_serial_replaces(v: CaptureView, image: CursorView, serial: u32)
    requires
        serial != v.cursor_serial,
    ensures
        updated_cursor(v, image, serial) == Some(image),
{
}

} // verus!
