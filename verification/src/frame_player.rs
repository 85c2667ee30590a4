//! Frame-stepping player: what its keys do, and how a frame is drawn into the
//! window.
use vstd::prelude::*;
use vstd::string::StringExecFns;

use crate::text::dec_string;

verus! {

/// One displayable frame, tightly packed, four bytes a pixel.
pub struct PlayerFrame {
    pub width: u32,
    pub height: u32,
    pub rgba: Vec<u8>,
}

/// The keys that the player listens to.
#[derive(Clone, Copy, PartialEq, Eq, Debug, Structural)]
pub enum PlayerKey {
    ArrowRight,
    ArrowUp,
    R,
    Escape,
    Q,
    Other,
}

/// What a key asks of the frame source or the window.
#[derive(Clone, Copy, PartialEq, Eq, Debug, Structural)]
pub enum PlayerAction {
    StepFrames(u32),
    StepSecs(u32),
    Restart,
    Quit,
    Nothing,
}

#[derive(Clone, Copy, PartialEq, Eq, Debug, Structural)]
pub struct Player {
    pub shift: bool,
    /// The last step found no frame.
    pub at_end: bool,
}

impl Player {
    pub fn new() -> (p: Player)
        ensures
            p == (Player { shift: false, at_end: false }),
    {
        Player { shift: false, at_end: false }
    }

    /// What a key does: shift makes a step ten times as long.
    pub open spec fn action_of(self, key: PlayerKey) -> PlayerAction {
        let n: u32 = if self.shift {
            10
        } else {
            1
        };
        match key {
            PlayerKey::ArrowRight => PlayerAction::StepFrames(n),
            PlayerKey::ArrowUp => PlayerAction::StepSecs(n),
            PlayerKey::R => PlayerAction::Restart,
            PlayerKey::Escape | PlayerKey::Q => PlayerAction::Quit,
            PlayerKey::Other => PlayerAction::Nothing,
        }
    }

    pub fn handle_key(self, key: PlayerKey) -> (a: PlayerAction)
        ensures
            a == self.action_of(key),
    {
        let n: u32 = if self.shift {
            10
        } else {
            1
        };
        match key {
            PlayerKey::ArrowRight => PlayerAction::StepFrames(n),
            PlayerKey::ArrowUp => PlayerAction::StepSecs(n),
            PlayerKey::R => PlayerAction::Restart,
            PlayerKey::Escape | PlayerKey::Q => PlayerAction::Quit,
            PlayerKey::Other => PlayerAction::Nothing,
        }
    }

    /// A step gave a frame, or none. Without a frame the one shown stays.
    pub fn advance(self, got_frame: bool) -> (p: Player)
        ensures
            p == (Player { at_end: !got_frame, ..self }),
    {
        Player { at_end: !got_frame, ..self }
    }

    /// The window title.
    pub fn title(self, status: &str) -> (s: String)
        ensures
            s@ == "splattar play — "@ + status@ + (if self.at_end {
                " · END"@
            } else {
                Seq::empty()
            }) + "   [→ +1f  ⇧→ +10f  ↑ +1s  ⇧↑ +10s  R restart  Esc quit]"@,
    {
        let mut s = String::from_str("splattar play — ");
        s.append(status);
        proof {
            assert("splattar play — "@ + status@ + Seq::<char>::empty() =~= "splattar play — "@
                + status@);
        }
        if self.at_end {
            s.append(" · END");
        }
        s.append("   [→ +1f  ⇧→ +10f  ↑ +1s  ⇧↑ +10s  R restart  Esc quit]");
        s
    }
}

/// Initial window size for a frame: at most 1600 by 1000.
pub fn window_size(frame: &PlayerFrame) -> (s: (u32, u32))
    ensures
        s.0 == (if frame.width <= 1600 {
            frame.width
        } else {
            1600
        }),
        s.1 == (if frame.height <= 1000 {
            frame.height
        } else {
            1000
        }),
{
    (
        if frame.width <= 1600 {
            frame.width
        } else {
            1600
        },
        if frame.height <= 1000 {
            frame.height
        } else {
            1000
        },
    )
}

/// Where in the window the frame is drawn.
#[derive(Clone, Copy, PartialEq, Eq, Debug, Structural)]
pub struct Letterbox {
    pub x: u32,
    pub y: u32,
    pub width: u32,
    pub height: u32,
}

pub open spec fn clamped(v: int, max: int) -> int {
    if v < 1 {
        1
    } else if v > max {
        max
    } else {
        v
    }
}

/// Centres a scaled frame in a window. The scaled size is brought into the
/// window, and is never empty.
pub fn letterbox(window: (u32, u32), scaled: (u64, u64)) -> (l: Letterbox)
    requires
        window.0 >= 1,
        window.1 >= 1,
    ensures
        l.width == clamped(scaled.0 as int, window.0 as int),
        l.height == clamped(scaled.1 as int, window.1 as int),
        l.x == (window.0 - l.width) / 2,
        l.y == (window.1 - l.height) / 2,
        l.x + l.width <= window.0,
        l.y + l.height <= window.1,
{
    let width: u32 = if scaled.0 < 1 {
        1
    } else if scaled.0 > window.0 as u64 {
        window.0
    } else {
        scaled.0 as u32
    };
    let height: u32 = if scaled.1 < 1 {
        1
    } else if scaled.1 > window.1 as u64 {
        window.1
    } else {
        scaled.1 as u32
    };
    Letterbox { x: (window.0 - width) / 2, y: (window.1 - height) / 2, width, height }
}

/// The pixel of the frame that is nearest to a place in the drawn area.
pub open spec fn source_of(d: int, frame: int, drawn: int) -> int {
    d * frame / drawn
}

/// The window's pixel at `(x, y)`: red, green and blue from the highest byte
/// but one down, black outside the drawn area.
pub open spec fn window_pixel(f: PlayerFrame, l: Letterbox, x: int, y: int) -> u32 {
    if l.x <= x < l.x + l.width && l.y <= y < l.y + l.height {
        let sx = source_of(x - l.x, f.width as int, l.width as int);
        let sy = source_of(y - l.y, f.height as int, l.height as int);
        let s = (sy * f.width + sx) * 4;
        (f.rgba@[s] * 0x1_0000 + f.rgba@[s + 1] * 0x100 + f.rgba@[s + 2]) as u32
    } else {
        0
    }
}

/// The whole window.
pub open spec fn window_pixels(f: PlayerFrame, l: Letterbox, width: int, height: int) -> Seq<u32> {
    Seq::new((width * height) as nat, |p: int| window_pixel(f, l, p % width, p / width))
}

proof fn lemma_source_inside(d: int, frame: int, drawn: int)
    requires
        0 <= d < drawn,
        0 < frame,
    ensures
        0 <= source_of(d, frame, drawn) < frame,
{
    vstd::arithmetic::mul::lemma_mul_nonnegative(d, frame);
    vstd::arithmetic::div_mod::lemma_div_pos_is_pos(d * frame, drawn);
    assert(d * frame < drawn * frame) by (nonlinear_arith)
        requires
            d < drawn,
            0 < frame,
    ;
    vstd::arithmetic::div_mod::lemma_multiply_divide_lt(d * frame, drawn, frame);
}

fn nearest(d: u32, frame: u32, drawn: u32) -> (s: u32)
    requires
        d < drawn,
        0 < frame,
    ensures
        s == source_of(d as int, frame as int, drawn as int),
        s < frame,
{
    proof {
        lemma_source_inside(d as int, frame as int, drawn as int);
        assert(d * frame <= u64::MAX) by (nonlinear_arith)
            requires
                d <= u32::MAX,
                frame <= u32::MAX,
        ;
    }
    ((d as u64) * (frame as u64) / (drawn as u64)) as u32
}

/// Whether a frame has pixels, and data for all of them.
pub open spec fn frame_ok(f: PlayerFrame) -> bool {
    &&& f.width >= 1
    &&& f.height >= 1
    &&& f.width * f.height * 4 <= f.rgba@.len()
}

fn pixel_at(f: &PlayerFrame, sx: u32, sy: u32) -> (p: u32)
    requires
        frame_ok(*f),
        sx < f.width,
        sy < f.height,
    ensures
        ({
            let s = (sy * f.width + sx) * 4;
            p == f.rgba@[s] * 0x1_0000 + f.rgba@[s + 1] * 0x100 + f.rgba@[s + 2]
        }),
{
    let ghost at = (sy * f.width + sx) * 4;
    proof {
        assert(0 <= sy * f.width && (sy * f.width + sx) * 4 + 4 <= f.width * f.height * 4)
            by (nonlinear_arith)
            requires
                0 <= sx < f.width,
                0 <= sy < f.height,
        ;
    }
    let len: usize = f.rgba.len();
    let s: usize = (sy as usize * f.width as usize + sx as usize) * 4;
    (f.rgba[s] as u32) * 0x1_0000 + (f.rgba[s + 1] as u32) * 0x100 + f.rgba[s + 2] as u32
}

/// Draws a frame into the window, nearest pixel by nearest pixel.
pub fn blit(f: &PlayerFrame, l: Letterbox, window: (u32, u32)) -> (buffer: Vec<u32>)
    requires
        frame_ok(*f),
        l.x + l.width <= window.0,
        l.y + l.height <= window.1,
    ensures
        buffer@ == window_pixels(*f, l, window.0 as int, window.1 as int),
{
    let ghost width = window.0 as int;
    let ghost height = window.1 as int;
    let mut buffer: Vec<u32> = Vec::new();
    let mut y: u32 = 0;
    while y < window.1
        invariant
            y <= window.1,
            width == window.0,
            height == window.1,
            frame_ok(*f),
            l.x + l.width <= window.0,
            l.y + l.height <= window.1,
            buffer@.len() == y * width,
            forall|p: int|
                0 <= p < buffer@.len() ==> (#[trigger] buffer@[p]) == window_pixel(
                    *f,
                    l,
                    p % width,
                    p / width,
                ),
        decreases window.1 - y,
    {
        let mut x: u32 = 0;
        while x < window.0
            invariant
                x <= window.0,
                y < window.1,
                width == window.0,
                height == window.1,
                frame_ok(*f),
                l.x + l.width <= window.0,
                l.y + l.height <= window.1,
                buffer@.len() == y * width + x,
                forall|p: int|
                    0 <= p < buffer@.len() ==> (#[trigger] buffer@[p]) == window_pixel(
                        *f,
                        l,
                        p % width,
                        p / width,
                    ),
            decreases window.0 - x,
        {
            proof {
                vstd::arithmetic::div_mod::lemma_fundamental_div_mod_converse(
                    y * width + x,
                    width,
                    y as int,
                    x as int,
                );
            }
            if l.x <= x && x - l.x < l.width && l.y <= y && y - l.y < l.height {
                let sx: u32 = nearest(x - l.x, f.width, l.width);
                let sy: u32 = nearest(y - l.y, f.height, l.height);
                buffer.push(pixel_at(f, sx, sy));
            } else {
                buffer.push(0);
            }
            x = x + 1;
        }
        proof {
            vstd::arithmetic::mul::lemma_mul_is_distributive_add_other_way(width, y as int, 1);
        }
        y = y + 1;
    }
    proof {
        vstd::arithmetic::mul::lemma_mul_is_commutative(height, width);
        assert(buffer@ =~= window_pixels(*f, l, width, height));
    }
    buffer
}

/// A frame drawn at its own size shows each of its pixels where it is.
pub proof fn unscaled_frame_is_copied(d: int, size: int)
    requires
        0 <= d < size,
    ensures
        source_of(d, size, size) == d,
{
    vstd::arithmetic::div_mod::lemma_div_multiples_vanish(d, size);
    vstd::arithmetic::mul::lemma_mul_is_commutative(d, size);
}

// ---- stepping through a video ----

#[derive(Clone, Copy, PartialEq, Eq, Debug, Structural)]
pub enum StreamCodec {
    H264,
    H265,
}

/// How far a video has been stepped.
#[derive(Clone, Copy, Debug)]
pub struct PlayPosition {
    pub frame_idx: u64,
    pub size: (u32, u32),
    pub codec: StreamCodec,
}

impl PlayPosition {
    pub fn open(codec: StreamCodec) -> (p: PlayPosition)
        ensures
            p == (PlayPosition { frame_idx: 0, size: (0, 0), codec }),
    {
        PlayPosition { frame_idx: 0, size: (0, 0), codec }
    }

    /// A frame was decoded.
    pub fn next(self, size: (u32, u32)) -> (p: PlayPosition)
        requires
            self.frame_idx < u64::MAX,
        ensures
            p == (PlayPosition { frame_idx: (self.frame_idx + 1) as u64, size, ..self }),
    {
        PlayPosition { frame_idx: self.frame_idx + 1, size, ..self }
    }

    /// The video was reopened.
    pub fn restart(self) -> (p: PlayPosition)
        ensures
            p == (PlayPosition { frame_idx: 0, ..self }),
    {
        PlayPosition { frame_idx: 0, ..self }
    }

    /// Status line, with the presentation time as text.
    pub fn status(self, seconds: &str) -> (s: String)
        ensures
            s@ == "frame "@ + crate::text::dec(self.frame_idx as nat) + " · "@ + seconds@ + "s · "@
                + crate::text::dec(self.size.0 as nat) + "x"@ + crate::text::dec(
                self.size.1 as nat,
            ) + " "@ + match self.codec {
                StreamCodec::H264 => "h264"@,
                StreamCodec::H265 => "h265"@,
            },
    {
        let mut s = String::from_str("frame ");
        s.append(dec_string(self.frame_idx).as_str());
        s.append(" · ");
        s.append(seconds);
        s.append("s · ");
        s.append(dec_string(self.size.0 as u64).as_str());
        s.append("x");
        s.append(dec_string(self.size.1 as u64).as_str());
        s.append(" ");
        match self.codec {
            StreamCodec::H264 => {
                s.append("h264");
            },
            StreamCodec::H265 => {
                s.append("h265");
            },
        }
        s
    }
}

/// Whether a step of `n` frames asks for another: not after `n`, nor after the
/// end of the stream.
pub fn wants_frame(taken: u32, n: u32, ended: bool) -> (b: bool)
    ensures
        b == (taken < n && !ended),
{
    taken < n && !ended
}

/// The drawn pixel `d` of `drawn` shows the frame's pixel whose share of the
/// drawn area holds it: the frame is scaled evenly, and no pixel beyond it is
/// shown.
pub proof fn drawn_pixel_lies_in_its_share(d: int, frame: int, drawn: int)
    requires
        0 <= d < drawn,
        0 < frame,
    ensures
        ({
            let s = source_of(d, frame, drawn);
            &&& 0 <= s < frame
            &&& s * drawn <= d * frame < (s + 1) * drawn
        }),
{
    let s = source_of(d, frame, drawn);
    let x = d * frame;
    vstd::arithmetic::div_mod::lemma_fundamental_div_mod(x, drawn);
    assert(drawn * s == s * drawn && (s + 1) * drawn == s * drawn + drawn) by (nonlinear_arith);
    assert(0 <= x < drawn * frame) by (nonlinear_arith)
        requires
            x == d * frame,
            0 <= d < drawn,
            0 < frame,
    ;
    assert(0 <= s < frame) by (nonlinear_arith)
        requires
            s * drawn <= x < s * drawn + drawn,
            0 <= x < drawn * frame,
            0 < drawn,
    ;
}

/// A window pixel holds the colours of the frame's pixel that it shows, red
/// above green above blue; around the drawn area it is black.
pub proof fn window_shows_the_frame(
    f: PlayerFrame,
    l: Letterbox,
    width: int,
    height: int,
    x: int,
    y: int,
)
    requires
        0 <= x < width,
        0 <= y < height,
    ensures
        ({
            let p = window_pixels(f, l, width, height)[y * width + x] as int;
            if l.x <= x < l.x + l.width && l.y <= y < l.y + l.height {
                let sx = source_of(x - l.x, f.width as int, l.width as int);
                let sy = source_of(y - l.y, f.height as int, l.height as int);
                let at = 4 * (sy * f.width + sx);
                &&& p / 0x1_0000 == f.rgba@[at]
                &&& p / 0x100 % 0x100 == f.rgba@[at + 1]
                &&& p % 0x100 == f.rgba@[at + 2]
            } else {
                p == 0
            }
        }),
{
    vstd::arithmetic::div_mod::lemma_fundamental_div_mod_converse(y * width + x, width, y, x);
    assert(0 <= y * width && y * width + x < width * height) by (nonlinear_arith)
        requires
            0 <= x < width,
            0 <= y < height,
    ;
}

/// Shift makes a step ten times as long, and nothing else; the arrows step by
/// frames to the right and by seconds upward.
pub proof fn shift_steps_ten_times_as_far(p: Player, key: PlayerKey)
    ensures
        ({
            let slow = Player { shift: false, ..p }.action_of(key);
            let fast = Player { shift: true, ..p }.action_of(key);
            &&& slow matches PlayerAction::StepFrames(n) ==> n == 1 && fast
                == PlayerAction::StepFrames((10 * n) as u32) && key == PlayerKey::ArrowRight
            &&& slow matches PlayerAction::StepSecs(n) ==> n == 1 && fast
                == PlayerAction::StepSecs((10 * n) as u32) && key == PlayerKey::ArrowUp
            &&& !(slow is StepFrames) && !(slow is StepSecs) ==> fast == slow
            &&& key == PlayerKey::ArrowRight ==> slow is StepFrames
            &&& key == PlayerKey::ArrowUp ==> slow is StepSecs
            &&& slow is Restart <==> key == PlayerKey::R
            &&& slow is Quit <==> key == PlayerKey::Escape || key == PlayerKey::Q
        }),
{
}

/// A scaled side is brought into the window and never empty, and is left
/// alone where it fits.
pub proof fn scaled_side_fits(v: int, max: int)
    requires
        1 <= max,
    ensures
        1 <= clamped(v, max) <= max,
        1 <= v <= max ==> clamped(v, max) == v,
        v > max ==> clamped(v, max) == max,
        v < 1 ==> clamped(v, max) == 1,
{
}

} // verus!
