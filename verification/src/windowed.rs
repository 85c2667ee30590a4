//! Controls of the interactive viewer: held keys, pointer lock, the walk
//! along a recorded camera path, and the choices made for its window.
use vstd::prelude::*;

use crate::overlay::OverlayMode;

verus! {

/// The keys that the viewer listens to.
#[derive(Clone, Copy, PartialEq, Eq, Debug, Structural)]
pub enum Key {
    W,
    A,
    S,
    D,
    E,
    Q,
    T,
    ArrowUp,
    ArrowDown,
    ArrowLeft,
    ArrowRight,
    Space,
    ControlLeft,
    ShiftLeft,
    Escape,
    Digit0,
    Digit1,
    Digit2,
    Digit3,
    BracketLeft,
    BracketRight,
    Other,
}

/// What the viewer keeps of its input.
#[derive(Clone, Copy, PartialEq, Eq, Debug, Structural)]
pub struct Controls {
    pub forward: bool,
    pub back: bool,
    pub left: bool,
    pub right: bool,
    pub up: bool,
    pub down: bool,
    pub sprint: bool,
    /// The pointer is locked to the window: the camera flies.
    pub locked: bool,
    /// Pose of the recorded path that was last gone to.
    pub spawn_idx: usize,
    /// The window exists.
    pub ready: bool,
    pub sh_degree: u8,
    /// The thumbnail overlay, where there are thumbnails.
    pub overlay: Option<OverlayMode>,
    /// The thumbnail was captured at exactly the pose last gone to.
    pub thumb_exact: bool,
    /// The render shows exactly a recorded pose.
    pub pose_held: bool,
}

/// What a key asks of the window.
#[derive(Clone, Copy, PartialEq, Eq, Debug, Structural)]
pub enum KeyAction {
    Nothing,
    /// Release the pointer.
    Unlock,
    Exit,
    /// Go to this pose of the path, and show this thumbnail.
    GoTo { pose: usize, thumb: Option<usize> },
}

/// The thumbnail of a pose, and whether it was captured at exactly that pose.
pub open spec fn thumb_of(thumbs: Seq<Option<(usize, bool)>>, pose: int) -> Option<(usize, bool)> {
    if 0 <= pose < thumbs.len() {
        thumbs[pose]
    } else {
        None
    }
}

/// The pose after a step along a path of `n` poses.
pub open spec fn stepped(idx: int, n: int, onward: bool) -> int {
    if onward {
        (idx + 1) % n
    } else {
        (idx + n - 1) % n
    }
}

/// The harmonics degree that a digit key chooses.
pub open spec fn digit_of(key: Key) -> Option<u8> {
    if key == Key::Digit0 {
        Some(0)
    } else if key == Key::Digit1 {
        Some(1)
    } else if key == Key::Digit2 {
        Some(2)
    } else if key == Key::Digit3 {
        Some(3)
    } else {
        None
    }
}

fn read_digit(key: Key) -> (d: Option<u8>)
    ensures
        d == digit_of(key),
{
    if key == Key::Digit0 {
        Some(0)
    } else if key == Key::Digit1 {
        Some(1)
    } else if key == Key::Digit2 {
        Some(2)
    } else if key == Key::Digit3 {
        Some(3)
    } else {
        None
    }
}

impl Controls {
    /// The pose last gone to is on the path, where there is one.
    pub open spec fn wf(self, poses: int) -> bool {
        poses > 0 ==> self.spawn_idx < poses
    }

    /// The controls at the start of a path, before the window exists.
    pub fn new(sh_degree: u8) -> (c: Controls)
        ensures
            forall|poses: int| c.wf(poses),
            c == (Controls {
                forward: false,
                back: false,
                left: false,
                right: false,
                up: false,
                down: false,
                sprint: false,
                locked: false,
                spawn_idx: 0,
                ready: false,
                sh_degree,
                overlay: None,
                thumb_exact: false,
                pose_held: false,
            }),
    {
        Controls {
            forward: false,
            back: false,
            left: false,
            right: false,
            up: false,
            down: false,
            sprint: false,
            locked: false,
            spawn_idx: 0,
            ready: false,
            sh_degree,
            overlay: None,
            thumb_exact: false,
            pose_held: false,
        }
    }

    /// The controls and the thumbnail to show once the window exists: the view
    /// starts at the first recorded pose, where there is one.
    pub open spec fn opened(
        self,
        poses: int,
        thumb_count: int,
        thumbs: Seq<Option<(usize, bool)>>,
    ) -> (Controls, Option<usize>) {
        let has_overlay = thumb_count > 0;
        let first = if has_overlay {
            thumb_of(thumbs, 0)
        } else {
            None
        };
        (
            Controls {
                ready: true,
                overlay: if has_overlay {
                    Some(OverlayMode::Pip)
                } else {
                    None
                },
                thumb_exact: first matches Some((_, exact)) && exact,
                pose_held: poses > 0,
                ..self
            },
            match first {
                Some((t, _)) => Some(t),
                None => None,
            },
        )
    }

    /// The window was created.
    pub fn open(
        self,
        poses: usize,
        thumb_count: usize,
        thumbs: &[Option<(usize, bool)>],
    ) -> (r: (Controls, Option<usize>))
        ensures
            r == self.opened(poses as int, thumb_count as int, thumbs@),
    {
        let first: Option<(usize, bool)> = if thumb_count > 0 && thumbs.len() > 0 {
            thumbs[0]
        } else {
            None
        };
        let exact: bool = match first {
            Some((_, exact)) => exact,
            None => false,
        };
        let shown: Option<usize> = match first {
            Some((t, _)) => Some(t),
            None => None,
        };
        let overlay: Option<OverlayMode> = if thumb_count > 0 {
            Some(OverlayMode::Pip)
        } else {
            None
        };
        (
            Controls { ready: true, overlay, thumb_exact: exact, pose_held: poses > 0, ..self },
            shown,
        )
    }

    /// The controls after a step along the path, and the action.
    #[verifier::opaque]
    pub open spec fn after_step(
        self,
        onward: bool,
        poses: int,
        thumbs: Seq<Option<(usize, bool)>>,
    ) -> (Controls, KeyAction) {
        let pose = stepped(self.spawn_idx as int, poses, onward) as usize;
        let moved = Controls { spawn_idx: pose, ..self };
        if !self.ready {
            (moved, KeyAction::Nothing)
        } else {
            let shown = if self.overlay is Some {
                thumb_of(thumbs, pose as int)
            } else {
                None
            };
            match shown {
                Some((t, exact)) => (
                    Controls { pose_held: true, thumb_exact: exact, ..moved },
                    KeyAction::GoTo { pose, thumb: Some(t) },
                ),
                None => (
                    Controls { pose_held: true, ..moved },
                    KeyAction::GoTo { pose, thumb: None },
                ),
            }
        }
    }

    /// The controls after a key that is held: None for other keys.
    #[verifier::opaque]
    pub open spec fn after_hold(self, key: Key, pressed: bool) -> Option<Controls> {
        if key == Key::W || key == Key::ArrowUp {
            Some(Controls { forward: pressed, ..self })
        } else if key == Key::S || key == Key::ArrowDown {
            Some(Controls { back: pressed, ..self })
        } else if key == Key::A || key == Key::ArrowLeft {
            Some(Controls { left: pressed, ..self })
        } else if key == Key::D || key == Key::ArrowRight {
            Some(Controls { right: pressed, ..self })
        } else if key == Key::E || key == Key::Space {
            Some(Controls { up: pressed, ..self })
        } else if key == Key::Q || key == Key::ControlLeft {
            Some(Controls { down: pressed, ..self })
        } else if key == Key::ShiftLeft {
            Some(Controls { sprint: pressed, ..self })
        } else {
            None
        }
    }

    /// The controls after a key that is pressed, and the action.
    #[verifier::opaque]
    pub open spec fn after_press(
        self,
        key: Key,
        poses: int,
        thumbs: Seq<Option<(usize, bool)>>,
    ) -> (Controls, KeyAction) {
        if key == Key::Escape {
            if self.locked {
                (self, KeyAction::Unlock)
            } else {
                (self, KeyAction::Exit)
            }
        } else if digit_of(key) is Some && self.ready {
            (Controls { sh_degree: digit_of(key)->0, ..self }, KeyAction::Nothing)
        } else if key == Key::T && self.ready && self.overlay is Some {
            (
                Controls { overlay: Some((self.overlay->0).after()), ..self },
                KeyAction::Nothing,
            )
        } else if (key == Key::BracketLeft || key == Key::BracketRight) && poses > 0 {
            self.after_step(key == Key::BracketRight, poses, thumbs)
        } else {
            (self, KeyAction::Nothing)
        }
    }

    /// The controls after a key, and the action.
    pub open spec fn after_key(
        self,
        key: Key,
        pressed: bool,
        poses: int,
        thumbs: Seq<Option<(usize, bool)>>,
    ) -> (Controls, KeyAction) {
        match self.after_hold(key, pressed) {
            Some(c) => (c, KeyAction::Nothing),
            None => if pressed {
                self.after_press(key, poses, thumbs)
            } else {
                (self, KeyAction::Nothing)
            },
        }
    }

    fn step(self, onward: bool, poses: usize, thumbs: &[Option<(usize, bool)>]) -> (r: (
        Controls,
        KeyAction,
    ))
        requires
            0 < poses,
            2 * poses <= usize::MAX,
            self.wf(poses as int),
        ensures
            r == self.after_step(onward, poses as int, thumbs@),
            r.0.wf(poses as int),
    {
        reveal(Controls::after_step);
        let pose: usize = if onward {
            (self.spawn_idx + 1) % poses
        } else {
            (self.spawn_idx + poses - 1) % poses
        };
        let moved = Controls { spawn_idx: pose, ..self };
        if !self.ready {
            return (moved, KeyAction::Nothing);
        }
        let shown: Option<(usize, bool)> = match self.overlay {
            Some(_) => if pose < thumbs.len() {
                thumbs[pose]
            } else {
                None
            },
            None => None,
        };
        match shown {
            Some((t, exact)) => (
                Controls { pose_held: true, thumb_exact: exact, ..moved },
                KeyAction::GoTo { pose, thumb: Some(t) },
            ),
            None => (
                Controls { pose_held: true, ..moved },
                KeyAction::GoTo { pose, thumb: None },
            ),
        }
    }

    fn hold(self, key: Key, pressed: bool) -> (r: Option<Controls>)
        ensures
            r == self.after_hold(key, pressed),
            r matches Some(c) ==> c.spawn_idx == self.spawn_idx,
    {
        reveal(Controls::after_hold);
        if key == Key::W || key == Key::ArrowUp {
            Some(Controls { forward: pressed, ..self })
        } else if key == Key::S || key == Key::ArrowDown {
            Some(Controls { back: pressed, ..self })
        } else if key == Key::A || key == Key::ArrowLeft {
            Some(Controls { left: pressed, ..self })
        } else if key == Key::D || key == Key::ArrowRight {
            Some(Controls { right: pressed, ..self })
        } else if key == Key::E || key == Key::Space {
            Some(Controls { up: pressed, ..self })
        } else if key == Key::Q || key == Key::ControlLeft {
            Some(Controls { down: pressed, ..self })
        } else if key == Key::ShiftLeft {
            Some(Controls { sprint: pressed, ..self })
        } else {
            None
        }
    }

    fn press(self, key: Key, poses: usize, thumbs: &[Option<(usize, bool)>]) -> (r: (
        Controls,
        KeyAction,
    ))
        requires
            2 * poses <= usize::MAX,
            self.wf(poses as int),
        ensures
            r == self.after_press(key, poses as int, thumbs@),
            r.0.wf(poses as int),
    {
        reveal(Controls::after_press);
        if key == Key::Escape {
            if self.locked {
                return (self, KeyAction::Unlock);
            }
            return (self, KeyAction::Exit);
        }
        if self.ready {
            match read_digit(key) {
                Some(sh_degree) => {
                    return (Controls { sh_degree, ..self }, KeyAction::Nothing);
                },
                None => {},
            }
            if key == Key::T {
                match self.overlay {
                    Some(mode) => {
                        return (
                            Controls { overlay: Some(mode.next()), ..self },
                            KeyAction::Nothing,
                        );
                    },
                    None => {},
                }
            }
        }
        if (key == Key::BracketLeft || key == Key::BracketRight) && poses > 0 {
            return self.step(key == Key::BracketRight, poses, thumbs);
        }
        (self, KeyAction::Nothing)
    }

    /// Handles a key.
    pub fn handle_key(
        self,
        key: Key,
        pressed: bool,
        poses: usize,
        thumbs: &[Option<(usize, bool)>],
    ) -> (r: (Controls, KeyAction))
        requires
            2 * poses <= usize::MAX,
            self.wf(poses as int),
        ensures
            r == self.after_key(key, pressed, poses as int, thumbs@),
            r.0.wf(poses as int),
    {
        match self.hold(key, pressed) {
            Some(c) => (c, KeyAction::Nothing),
            None => {
                if pressed {
                    self.press(key, poses, thumbs)
                } else {
                    (self, KeyAction::Nothing)
                }
            },
        }
    }

    /// Whether a key that moves the camera is held.
    pub open spec fn is_moving(self) -> bool {
        self.forward || self.back || self.left || self.right || self.up || self.down
    }

    /// Starts a frame: while the camera flies, any movement releases the held
    /// pose.
    pub fn begin_frame(self, mouse_moved: bool) -> (c: Controls)
        ensures
            c == (Controls {
                pose_held: self.pose_held && !(self.locked && (self.is_moving() || mouse_moved)),
                ..self
            }),
    {
        let moving: bool = self.forward || self.back || self.left || self.right || self.up
            || self.down || mouse_moved;
        Controls { pose_held: self.pose_held && !(self.locked && moving), ..self }
    }

    /// Whether the render shows the thumbnail's own frame: the pose is held,
    /// and the thumbnail was captured there.
    pub fn is_aligned(self) -> (b: bool)
        ensures
            b == (self.pose_held && self.thumb_exact),
    {
        self.pose_held && self.thumb_exact
    }

    /// The pointer was locked or released; a lock may have failed.
    pub fn set_locked(self, locked: bool, grabbed: bool) -> (c: Controls)
        ensures
            c == (Controls {
                locked: if !self.ready {
                    self.locked
                } else if locked {
                    self.locked || grabbed
                } else {
                    false
                },
                ..self
            }),
    {
        let now: bool = if !self.ready {
            self.locked
        } else if locked {
            self.locked || grabbed
        } else {
            false
        };
        Controls { locked: now, ..self }
    }
}

/// A step onward and a step back lead to the same pose.
pub proof fn stepping_back_undoes_stepping_on(idx: int, n: int)
    requires
        0 <= idx < n,
    ensures
        stepped(stepped(idx, n, true), n, false) == idx,
        stepped(stepped(idx, n, false), n, true) == idx,
        0 <= stepped(idx, n, true) < n,
        0 <= stepped(idx, n, false) < n,
{
    if idx + 1 < n {
        vstd::arithmetic::div_mod::lemma_small_mod((idx + 1) as nat, n as nat);
    } else {
        vstd::arithmetic::div_mod::lemma_mod_self_0(n);
    }
    vstd::arithmetic::div_mod::lemma_mod_add_multiples_vanish(idx, n);
    vstd::arithmetic::div_mod::lemma_small_mod(idx as nat, n as nat);
    if idx > 0 {
        vstd::arithmetic::div_mod::lemma_mod_add_multiples_vanish(idx - 1, n);
        vstd::arithmetic::div_mod::lemma_small_mod((idx - 1) as nat, n as nat);
    } else {
        vstd::arithmetic::div_mod::lemma_small_mod((n - 1) as nat, n as nat);
        vstd::arithmetic::div_mod::lemma_mod_self_0(n);
    }
    if idx + 1 == n {
        vstd::arithmetic::div_mod::lemma_small_mod((n - 1) as nat, n as nat);
    }
}

/// A free camera is never taken for the thumbnail's own frame: once movement
/// has released the pose, only a step along the path holds one again.
pub proof fn only_steps_hold_a_pose(
    c: Controls,
    key: Key,
    pressed: bool,
    poses: int,
    thumbs: Seq<Option<(usize, bool)>>,
)
    requires
        !c.pose_held,
        c.after_key(key, pressed, poses, thumbs).0.pose_held,
    ensures
        key == Key::BracketLeft || key == Key::BracketRight,
        c.after_key(key, pressed, poses, thumbs).1 is GoTo,
{
    reveal(Controls::after_step);
    reveal(Controls::after_hold);
    reveal(Controls::after_press);
}

/// The surface format to take: the first that is not gamma-encoded, else the
/// first.
pub fn choose_format(srgb: &[bool]) -> (i: usize)
    requires
        srgb@.len() > 0,
    ensures
        i < srgb@.len(),
        !srgb@[i as int] ==> forall|k: int| 0 <= k < i ==> #[trigger] srgb@[k],
        srgb@[i as int] ==> i == 0 && forall|k: int| 0 <= k < srgb@.len() ==> #[trigger] srgb@[k],
{
    let mut k: usize = 0;
    while k < srgb.len()
        invariant
            k <= srgb@.len(),
            forall|j: int| 0 <= j < k ==> #[trigger] srgb@[j],
        decreases srgb@.len() - k,
    {
        if !srgb[k] {
            return k;
        }
        k = k + 1;
    }
    0
}

#[derive(Clone, Copy, PartialEq, Eq, Debug, Structural)]
pub enum PresentMode {
    Fifo,
    Mailbox,
    Immediate,
}

/// The presentation mode to take, among those that the surface offers.
pub fn choose_present_mode(vsync: bool, mailbox: bool, immediate: bool) -> (m: PresentMode)
    ensures
        m == (if vsync {
            PresentMode::Fifo
        } else if mailbox {
            PresentMode::Mailbox
        } else if immediate {
            PresentMode::Immediate
        } else {
            PresentMode::Fifo
        }),
{
    if vsync {
        PresentMode::Fifo
    } else if mailbox {
        PresentMode::Mailbox
    } else if immediate {
        PresentMode::Immediate
    } else {
        PresentMode::Fifo
    }
}

/// Surface size for a window: never empty.
pub fn surface_size(width: u32, height: u32) -> (s: (u32, u32))
    ensures
        s.0 == (if width == 0 {
            1
        } else {
            width
        }),
        s.1 == (if height == 0 {
            1
        } else {
            height
        }),
{
    (
        if width == 0 {
            1
        } else {
            width
        },
        if height == 0 {
            1
        } else {
            height
        },
    )
}

/// The poses of a path that serve as anchors of the movement speed: every
/// fourth.
pub fn anchor_poses(poses: usize) -> (list: Vec<usize>)
    ensures
        list@ == Seq::new(((poses + 3) / 4) as nat, |i: int| (4 * i) as usize),
{
    let mut list: Vec<usize> = Vec::new();
    let n: usize = poses / 4 + (if poses % 4 == 0 {
        0
    } else {
        1
    });
    let mut i: usize = 0;
    while i < n
        invariant
            i <= n,
            n == (poses + 3) / 4,
            list@.len() == i,
            forall|k: int| 0 <= k < i ==> (#[trigger] list@[k]) == 4 * k,
        decreases n - i,
    {
        list.push(4 * i);
        i = i + 1;
    }
    assert(list@ =~= Seq::new(((poses + 3) / 4) as nat, |i: int| (4 * i) as usize));
    list
}

/// What a key does to the held controls: each is set while one of its two
/// keys is pressed, and by no other key.
pub proof fn held_keys_set_their_own_control(
    c: Controls,
    key: Key,
    pressed: bool,
    poses: int,
    thumbs: Seq<Option<(usize, bool)>>,
)
    ensures
        ({
            let d = c.after_key(key, pressed, poses, thumbs).0;
            &&& d.forward == if key == Key::W || key == Key::ArrowUp {
                pressed
            } else {
                c.forward
            }
            &&& d.back == if key == Key::S || key == Key::ArrowDown {
                pressed
            } else {
                c.back
            }
            &&& d.left == if key == Key::A || key == Key::ArrowLeft {
                pressed
            } else {
                c.left
            }
            &&& d.right == if key == Key::D || key == Key::ArrowRight {
                pressed
            } else {
                c.right
            }
            &&& d.up == if key == Key::E || key == Key::Space {
                pressed
            } else {
                c.up
            }
            &&& d.down == if key == Key::Q || key == Key::ControlLeft {
                pressed
            } else {
                c.down
            }
            &&& d.sprint == if key == Key::ShiftLeft {
                pressed
            } else {
                c.sprint
            }
            &&& d.locked == c.locked && d.ready == c.ready
        }),
{
    reveal(Controls::after_hold);
    reveal(Controls::after_press);
    reveal(Controls::after_step);
}

/// What a pressed key does beside the held controls: Escape releases the
/// pointer before it leaves, a digit chooses the degree of that number, T
/// goes on to the next overlay, and the brackets step along the path; nothing
/// happens when a key is released.
#[verifier::rlimit(40)]
pub proof fn pressed_keys_act_once(
    c: Controls,
    key: Key,
    poses: int,
    thumbs: Seq<Option<(usize, bool)>>,
)
    requires
        c.wf(poses),
        0 <= poses,
        2 * poses <= usize::MAX,
    ensures
        ({
            let (d, action) = c.after_key(key, true, poses, thumbs);
            let (e, released) = c.after_key(key, false, poses, thumbs);
            &&& released == KeyAction::Nothing
            &&& e.sh_degree == c.sh_degree && e.overlay == c.overlay && e.spawn_idx == c.spawn_idx
                && e.pose_held == c.pose_held && e.thumb_exact == c.thumb_exact
            &&& action is Unlock <==> key == Key::Escape && c.locked
            &&& action is Exit <==> key == Key::Escape && !c.locked
            &&& action is GoTo <==> (key == Key::BracketLeft || key == Key::BracketRight) && poses
                > 0 && c.ready
            &&& d.sh_degree == if !c.ready {
                c.sh_degree
            } else if key == Key::Digit0 {
                0
            } else if key == Key::Digit1 {
                1
            } else if key == Key::Digit2 {
                2
            } else if key == Key::Digit3 {
                3
            } else {
                c.sh_degree
            }
            &&& d.overlay is Some <==> c.overlay is Some
            &&& d.overlay != c.overlay ==> key == Key::T && c.ready
            &&& key == Key::T && c.ready && c.overlay == Some(OverlayMode::Off) ==> d.overlay
                == Some(OverlayMode::Pip)
            &&& key == Key::T && c.ready && c.overlay == Some(OverlayMode::Pip) ==> d.overlay
                == Some(OverlayMode::Blend)
            &&& key == Key::T && c.ready && c.overlay == Some(OverlayMode::Blend) ==> d.overlay
                == Some(OverlayMode::Off)
        }),
{
    reveal(Controls::after_hold);
    reveal(Controls::after_press);
    lemma_step(c, true, poses, thumbs);
    lemma_step(c, false, poses, thumbs);
}

/// A step keeps the degree and the overlay, and goes somewhere once the
/// window exists.
proof fn lemma_step(c: Controls, onward: bool, poses: int, thumbs: Seq<Option<(usize, bool)>>)
    ensures
        ({
            let (d, action) = c.after_step(onward, poses, thumbs);
            &&& d.sh_degree == c.sh_degree && d.overlay == c.overlay
            &&& d.spawn_idx == stepped(c.spawn_idx as int, poses, onward) as usize
            &&& if c.ready {
                d.pose_held && (action matches KeyAction::GoTo { pose, thumb } && pose
                    == d.spawn_idx && match thumb {
                    Some(t) => c.overlay is Some && d.spawn_idx < thumbs.len()
                        && thumbs[d.spawn_idx as int] == Some((t, d.thumb_exact)),
                    None => c.overlay is None || d.spawn_idx >= thumbs.len()
                        || thumbs[d.spawn_idx as int] is None,
                })
            } else {
                d.pose_held == c.pose_held && action == KeyAction::Nothing
            }
        }),
{
    reveal(Controls::after_step);
}

/// The brackets step along the path.
proof fn lemma_bracket(c: Controls, onward: bool, poses: int, thumbs: Seq<Option<(usize, bool)>>)
    requires
        0 < poses,
    ensures
        c.after_key(
            if onward {
                Key::BracketRight
            } else {
                Key::BracketLeft
            },
            true,
            poses,
            thumbs,
        ) == c.after_step(onward, poses, thumbs),
{
    reveal(Controls::after_hold);
    reveal(Controls::after_press);
}

/// The right bracket goes to the next pose of the path and the left one to
/// the pose before, round the ends; the pose is then held, and its thumbnail
/// is shown where the overlay is there.
pub proof fn brackets_go_round_the_path(
    c: Controls,
    onward: bool,
    poses: int,
    thumbs: Seq<Option<(usize, bool)>>,
)
    requires
        c.wf(poses),
        0 < poses,
        2 * poses <= usize::MAX,
    ensures
        ({
            let key = if onward {
                Key::BracketRight
            } else {
                Key::BracketLeft
            };
            let (d, action) = c.after_key(key, true, poses, thumbs);
            &&& onward ==> d.spawn_idx == c.spawn_idx + 1 || d.spawn_idx == 0 && c.spawn_idx + 1
                == poses
            &&& !onward ==> c.spawn_idx == d.spawn_idx + 1 || c.spawn_idx == 0 && d.spawn_idx + 1
                == poses
            &&& d.spawn_idx < poses
            &&& c.ready ==> d.pose_held && (action matches KeyAction::GoTo { pose, thumb } && pose
                == d.spawn_idx && match thumb {
                Some(t) => c.overlay is Some && d.spawn_idx < thumbs.len()
                    && thumbs[d.spawn_idx as int] == Some((t, d.thumb_exact)),
                None => c.overlay is None || d.spawn_idx >= thumbs.len()
                    || thumbs[d.spawn_idx as int] is None,
            })
            &&& !c.ready ==> d.pose_held == c.pose_held && action == KeyAction::Nothing
        }),
{
    lemma_bracket(c, onward, poses, thumbs);
    lemma_step(c, onward, poses, thumbs);
    let i = c.spawn_idx as int;
    if onward {
        if i + 1 < poses {
            vstd::arithmetic::div_mod::lemma_small_mod((i + 1) as nat, poses as nat);
        } else {
            vstd::arithmetic::div_mod::lemma_mod_self_0(poses);
        }
    } else {
        if i == 0 {
            vstd::arithmetic::div_mod::lemma_small_mod((poses - 1) as nat, poses as nat);
        } else {
            vstd::arithmetic::div_mod::lemma_mod_add_multiples_vanish(i - 1, poses);
            vstd::arithmetic::div_mod::lemma_small_mod((i - 1) as nat, poses as nat);
        }
    }
}

/// A window opens at the first pose of the path, with the overlay in its
/// corner where there are thumbnails, and shows the first pose's thumbnail
/// where it has one.
pub proof fn window_opens_at_the_first_pose(
    c: Controls,
    poses: int,
    thumb_count: int,
    thumbs: Seq<Option<(usize, bool)>>,
)
    ensures
        ({
            let (d, shown) = c.opened(poses, thumb_count, thumbs);
            &&& d.ready
            &&& d.pose_held <==> poses > 0
            &&& thumb_count > 0 ==> d.overlay == Some(OverlayMode::Pip)
            &&& thumb_count <= 0 ==> d.overlay is None
            &&& shown matches Some(t) ==> thumb_count > 0 && thumbs.len() > 0 && thumbs[0] == Some(
                (t, d.thumb_exact),
            )
            &&& shown is None ==> !d.thumb_exact && (thumb_count <= 0 || thumbs.len() == 0
                || thumbs[0] is None)
            &&& d.spawn_idx == c.spawn_idx && d.sh_degree == c.sh_degree && d.locked == c.locked
        }),
{
}

} // verus!
