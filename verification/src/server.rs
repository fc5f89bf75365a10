//! Decisions of the streaming server: the page it serves, the pacing of the
//! capture loop and what each WebSocket connection does next.

use crate::text::{
    chars_of, contains, decimal, occurs_at, push_decimal, replace_all, replace_chars, starts_with,
};
use vstd::prelude::*;

verus! {

/// The placeholder in the page template that the rotation replaces.
pub open spec fn rotation_placeholder() -> Seq<char> {
    "__ROTATION__"@
}

/// The served page: the template with every `__ROTATION__` replaced by the
/// rotation in decimal.
pub open spec fn spec_render_index(template: Seq<char>, rotation: i32) -> Seq<char> {
    replace_all(template, rotation_placeholder(), decimal(rotation as int))
}

/// The page served at `/`: `template` with every `__ROTATION__` replaced by
/// `rotation` in decimal.
pub fn render_index(template: &str, rotation: i32) -> (page: String)
    ensures
        page@ == spec_render_index(template@, rotation),
{
    let chars = chars_of(template);
    let placeholder = chars_of("__ROTATION__");
    proof {
        reveal_strlit("__ROTATION__");
    }
    let mut value = String::new();
    push_decimal(&mut value, rotation as i64);
    assert(value@ == decimal(rotation as int));
    replace_chars(chars.as_slice(), placeholder.as_slice(), value.as_str())
}

/// How long the capture loop sleeps after a frame that took `elapsed` of
/// its `frame_time` (both in nanoseconds): the rest of the frame time, or
/// nothing once the frame time is used up.
pub fn frame_delay(frame_time: u128, elapsed: u128) -> (delay: Option<u128>)
    ensures
        elapsed < frame_time ==> delay == Some((frame_time - elapsed) as u128),
        elapsed >= frame_time ==> delay is None,
{
    if elapsed < frame_time {
        Some(frame_time - elapsed)
    } else {
        None
    }
}

/// What happened on a WebSocket connection.
#[derive(Debug, Clone, Copy, PartialEq, Eq, Structural)]
pub enum SocketEvent {
    /// A new JPEG frame arrived from the capture loop.
    FrameReady,
    /// The connection fell behind and frames were dropped.
    Lagged,
    /// The capture loop has ended.
    Closed,
    /// The frame was sent to the client.
    Sent,
    /// Sending the frame failed: the client is gone.
    SendFailed,
}

/// What a WebSocket connection does next.
#[derive(Debug, Clone, Copy, PartialEq, Eq, Structural)]
pub enum SocketAction {
    /// Send the frame that arrived.
    Send,
    /// Wait for the next frame.
    Receive,
    /// Close the connection, reporting a disconnected client if `disconnected`.
    Stop { disconnected: bool },
}

/// The next step of a connection: send each frame that arrives, skip ahead
/// when frames were dropped, and stop when the capture loop has ended or the
/// client is gone.
pub fn socket_step(event: SocketEvent) -> (action: SocketAction)
    ensures
        event == SocketEvent::FrameReady ==> action == SocketAction::Send,
        event == SocketEvent::Lagged ==> action == SocketAction::Receive,
        event == SocketEvent::Sent ==> action == SocketAction::Receive,
        event == SocketEvent::Closed ==> action == (SocketAction::Stop { disconnected: false }),
        event == SocketEvent::SendFailed ==> action == (SocketAction::Stop { disconnected: true }),
{
    match event {
        SocketEvent::FrameReady => SocketAction::Send,
        SocketEvent::Lagged => SocketAction::Receive,
        SocketEvent::Sent => SocketAction::Receive,
        SocketEvent::Closed => SocketAction::Stop { disconnected: false },
        SocketEvent::SendFailed => SocketAction::Stop { disconnected: true },
    }
}

/// What happened in one round of the capture loop.
#[derive(Debug, Clone, Copy, PartialEq, Eq, Structural)]
pub enum CaptureEvent {
    /// The server asked the loop to stop.
    StopRequested,
    /// Capturing the frame failed.
    CaptureFailed,
    /// Encoding the frame as JPEG failed.
    EncodeFailed,
    /// The frame was captured, encoded and handed to the connections; the
    /// round took `elapsed` nanoseconds.
    FrameSent { elapsed: u128 },
}

/// What the capture loop does next.
#[derive(Debug, Clone, Copy, PartialEq, Eq, Structural)]
pub enum CaptureAction {
    /// Leave the loop.
    Stop,
    /// Start the next round, after sleeping `delay` nanoseconds if any.
    Continue { delay: Option<u128> },
}

/// The next step of the capture loop, which aims at one frame per
/// `frame_time` nanoseconds: stop when asked to or when a frame cannot be
/// captured or encoded; otherwise sleep for what is left of the frame time.
pub fn capture_step(event: CaptureEvent, frame_time: u128) -> (action: CaptureAction)
    ensures
        event is StopRequested ==> action == CaptureAction::Stop,
        event is CaptureFailed ==> action == CaptureAction::Stop,
        event is EncodeFailed ==> action == CaptureAction::Stop,
        event matches CaptureEvent::FrameSent { elapsed } ==> {
            &&& elapsed < frame_time ==> action == (CaptureAction::Continue {
                delay: Some((frame_time - elapsed) as u128),
            })
            &&& elapsed >= frame_time ==> action == (CaptureAction::Continue { delay: None })
        },
{
    match event {
        CaptureEvent::StopRequested => CaptureAction::Stop,
        CaptureEvent::CaptureFailed => CaptureAction::Stop,
        CaptureEvent::EncodeFailed => CaptureAction::Stop,
        CaptureEvent::FrameSent { elapsed } => CaptureAction::Continue { delay: frame_delay(frame_time, elapsed) },
    }
}

/// A template that holds the placeholder is served with the rotation, in
/// decimal, in the page.
pub proof fn law_render_shows_rotation(template: Seq<char>, rotation: i32)
    requires
        contains(template, "__ROTATION__"@),
    ensures
        contains(spec_render_index(template, rotation), decimal(rotation as int)),
{
    reveal_strlit("__ROTATION__");
    lemma_replace_shows(template, "__ROTATION__"@, decimal(rotation as int));
}

proof fn lemma_replace_shows(s: Seq<char>, p: Seq<char>, r: Seq<char>)
    requires
        p.len() > 0,
        contains(s, p),
    ensures
        contains(replace_all(s, p, r), r),
    decreases s.len(),
{
    if starts_with(s, p) {
        let rest = replace_all(s.skip(p.len() as int), p, r);
        assert((r + rest).subrange(0, r.len() as int) == r);
        assert(occurs_at(r + rest, r, 0));
    } else {
        let i = choose|i: int| occurs_at(s, p, i);
        if i == 0 {
            assert(s.take(p.len() as int) == s.subrange(0, p.len() as int));
        }
        assert(occurs_at(s.drop_first(), p, i - 1)) by {
            assert(s.drop_first().subrange(i - 1, i - 1 + p.len()) == s.subrange(i, i + p.len()));
        }
        lemma_replace_shows(s.drop_first(), p, r);
        let rest = replace_all(s.drop_first(), p, r);
        let j = choose|j: int| occurs_at(rest, r, j);
        assert((seq![s[0]] + rest).subrange(j + 1, j + 1 + r.len()) == rest.subrange(j, j + r.len()));
        assert(occurs_at(seq![s[0]] + rest, r, j + 1));
    }
}

/// The placeholder, between two texts in which no occurrence of it starts,
/// is replaced by the rotation in decimal and nothing else changes:
/// `render(p + "__ROTATION__" + q) == p + decimal(rotation) + q`.
pub proof fn law_render_replaces_placeholder(p: Seq<char>, q: Seq<char>, rotation: i32)
    requires
        forall|i: int| 0 <= i < p.len() ==> !occurs_at(p + "__ROTATION__"@ + q, "__ROTATION__"@, i),
        !contains(q, "__ROTATION__"@),
    ensures
        spec_render_index(p + "__ROTATION__"@ + q, rotation) == p + decimal(rotation as int) + q,
{
    reveal_strlit("__ROTATION__");
    assert(p + "__ROTATION__"@ + q == p + ("__ROTATION__"@ + q));
    lemma_replace_prefix(p, "__ROTATION__"@ + q, "__ROTATION__"@, decimal(rotation as int));
    let t = "__ROTATION__"@ + q;
    let pl = "__ROTATION__"@;
    assert(starts_with(t, pl)) by {
        assert(t.take(pl.len() as int) == pl);
    }
    assert(t.skip(pl.len() as int) == q);
    lemma_replace_absent(q, pl, decimal(rotation as int));
    assert(p + t == p + "__ROTATION__"@ + q);
    assert(p + (decimal(rotation as int) + q) == p + decimal(rotation as int) + q);
}

/// Characters before the first occurrence of the pattern are kept as
/// they are.
proof fn lemma_replace_prefix(a: Seq<char>, b: Seq<char>, p: Seq<char>, r: Seq<char>)
    requires
        p.len() > 0,
        forall|i: int| 0 <= i < a.len() ==> !occurs_at(a + b, p, i),
    ensures
        replace_all(a + b, p, r) == a + replace_all(b, p, r),
    decreases a.len(),
{
    if a.len() == 0 {
        assert(a + b == b);
    } else {
        let s = a + b;
        if starts_with(s, p) {
            assert(s.subrange(0, p.len() as int) == s.take(p.len() as int));
            assert(occurs_at(s, p, 0));
        }
        assert(s.drop_first() == a.drop_first() + b);
        assert forall|i: int| 0 <= i < a.drop_first().len() implies !occurs_at(
            a.drop_first() + b,
            p,
            i,
        ) by {
            if occurs_at(a.drop_first() + b, p, i) {
                assert(s.subrange(i + 1, i + 1 + p.len()) == (a.drop_first() + b).subrange(i, i + p.len()));
                assert(occurs_at(s, p, i + 1));
            }
        }
        lemma_replace_prefix(a.drop_first(), b, p, r);
        assert(s[0] == a[0]);
        assert(seq![a[0]] + (a.drop_first() + replace_all(b, p, r)) == a + replace_all(b, p, r));
    }
}

/// A template without the placeholder is served as it is.
pub proof fn law_render_without_placeholder(template: Seq<char>, rotation: i32)
    requires
        !contains(template, rotation_placeholder()),
    ensures
        spec_render_index(template, rotation) == template,
{
    reveal_strlit("__ROTATION__");
    lemma_replace_absent(template, rotation_placeholder(), decimal(rotation as int));
}

proof fn lemma_replace_absent(s: Seq<char>, p: Seq<char>, r: Seq<char>)
    requires
        p.len() > 0,
        !contains(s, p),
    ensures
        replace_all(s, p, r) == s,
    decreases s.len(),
{
    if s.len() > 0 {
        if starts_with(s, p) {
            assert(occurs_at(s, p, 0));
        }
        assert forall|i: int| !occurs_at(s.drop_first(), p, i) by {
            if occurs_at(s.drop_first(), p, i) {
                assert(s.subrange(i + 1, i + 1 + p.len()) == s.drop_first().subrange(i, i + p.len()));
                assert(occurs_at(s, p, i + 1));
            }
        }
        lemma_replace_absent(s.drop_first(), p, r);
        assert(seq![s[0]] + s.drop_first() == s);
    }
}

} // verus!
