use splattar::frame_player::{
    blit, letterbox, wants_frame, window_size, Letterbox, PlayPosition, Player, PlayerAction,
    PlayerFrame, PlayerKey, StreamCodec,
};
use splattar::overlay::{thumb_upload, OverlayMode, ThumbImage};
use splattar::windowed::{
    anchor_poses, choose_format, choose_present_mode, surface_size, Controls, Key, KeyAction,
    PresentMode,
};

#[test]
fn overlay_cycles_through_its_modes() {
    assert_eq!(OverlayMode::Off.next(), OverlayMode::Pip);
    assert_eq!(OverlayMode::Pip.next(), OverlayMode::Blend);
    assert_eq!(OverlayMode::Blend.next(), OverlayMode::Off);
}

#[test]
fn thumbnail_rows_are_padded() {
    let u = thumb_upload(&ThumbImage { width: 3, height: 2, gray: vec![1, 2, 3, 4, 5, 6] });
    assert_eq!(u.bytes_per_row, 256);
    assert_eq!(u.rows.len(), 512);
    assert_eq!(u.rows[..4], [1, 2, 3, 0]);
    assert_eq!(u.rows[256..260], [4, 5, 6, 0]);
}

#[test]
fn movement_keys_are_held() {
    let c = Controls::new(3);
    let (c, a) = c.handle_key(Key::W, true, 0, &[]);
    assert!(c.forward);
    assert_eq!(a, KeyAction::Nothing);
    let (c, _) = c.handle_key(Key::W, false, 0, &[]);
    assert!(!c.forward);
    let (c, _) = c.handle_key(Key::Space, true, 0, &[]);
    assert!(c.up);
}

#[test]
fn escape_unlocks_and_then_exits() {
    let (c, _) = Controls::new(3).open(0, 0, &[]);
    let c = c.set_locked(true, true);
    assert!(c.locked);
    assert_eq!(c.handle_key(Key::Escape, true, 0, &[]).1, KeyAction::Unlock);
    let c = c.set_locked(false, false);
    assert_eq!(c.handle_key(Key::Escape, true, 0, &[]).1, KeyAction::Exit);
    // A failed grab leaves the pointer free, and nothing is locked before the
    // window exists.
    assert!(!c.set_locked(true, false).locked);
    assert!(!Controls::new(3).set_locked(true, true).locked);
}

#[test]
fn steps_along_the_path_hold_the_pose() {
    let thumbs = [Some((0, true)), None, Some((1, false))];
    let (c, shown) = Controls::new(3).open(3, 2, &thumbs);
    assert_eq!(shown, Some(0));
    assert_eq!(c.overlay, Some(OverlayMode::Pip));
    assert!(c.is_aligned());

    let (on, a) = c.handle_key(Key::BracketRight, true, 3, &thumbs);
    assert_eq!(a, KeyAction::GoTo { pose: 1, thumb: None });
    assert_eq!(on.spawn_idx, 1);
    let (back, a) = on.handle_key(Key::BracketLeft, true, 3, &thumbs);
    assert_eq!(a, KeyAction::GoTo { pose: 0, thumb: Some(0) });
    assert_eq!(back.spawn_idx, c.spawn_idx);
    let (wrapped, a) = c.handle_key(Key::BracketLeft, true, 3, &thumbs);
    assert_eq!(a, KeyAction::GoTo { pose: 2, thumb: Some(1) });
    assert!(wrapped.pose_held && !wrapped.is_aligned());

    // Flying off releases the pose.
    let flying = c.set_locked(true, true).begin_frame(true);
    assert!(!flying.pose_held && !flying.is_aligned());
    assert!(c.begin_frame(true).pose_held);
}

#[test]
fn digits_choose_the_degree() {
    let (c, _) = Controls::new(3).open(0, 0, &[]);
    assert_eq!(c.handle_key(Key::Digit1, true, 0, &[]).0.sh_degree, 1);
    assert_eq!(c.handle_key(Key::Digit1, false, 0, &[]).0.sh_degree, 3);
    assert_eq!(c.handle_key(Key::Other, true, 0, &[]).0, c);
    let (t, _) = Controls::new(3).open(1, 1, &[None]);
    assert_eq!(t.handle_key(Key::T, true, 1, &[None]).0.overlay, Some(OverlayMode::Blend));
}

#[test]
fn surface_choices() {
    assert_eq!(choose_format(&[true, false, false]), 1);
    assert_eq!(choose_format(&[true, true]), 0);
    assert_eq!(choose_present_mode(true, true, true), PresentMode::Fifo);
    assert_eq!(choose_present_mode(false, true, true), PresentMode::Mailbox);
    assert_eq!(choose_present_mode(false, false, true), PresentMode::Immediate);
    assert_eq!(choose_present_mode(false, false, false), PresentMode::Fifo);
    assert_eq!(surface_size(0, 7), (1, 7));
    assert_eq!(anchor_poses(9), vec![0, 4, 8]);
    assert!(anchor_poses(0).is_empty());
}

#[test]
fn player_keys() {
    let p = Player::new();
    assert_eq!(p.handle_key(PlayerKey::ArrowRight), PlayerAction::StepFrames(1));
    let shifted = Player { shift: true, ..p };
    assert_eq!(shifted.handle_key(PlayerKey::ArrowRight), PlayerAction::StepFrames(10));
    assert_eq!(shifted.handle_key(PlayerKey::ArrowUp), PlayerAction::StepSecs(10));
    assert_eq!(p.handle_key(PlayerKey::R), PlayerAction::Restart);
    assert_eq!(p.handle_key(PlayerKey::Q), PlayerAction::Quit);
    assert_eq!(p.handle_key(PlayerKey::Other), PlayerAction::Nothing);
    assert!(p.advance(false).at_end);
    assert!(p.advance(false).title("x").contains("x · END"));
    assert!(!p.advance(true).title("x").contains("END"));
}

#[test]
fn frames_are_centred_in_the_window() {
    assert_eq!(
        letterbox((100, 50), (60, 50)),
        Letterbox { x: 20, y: 0, width: 60, height: 50 }
    );
    assert_eq!(letterbox((10, 10), (0, 99)), Letterbox { x: 4, y: 0, width: 1, height: 10 });
    let big = PlayerFrame { width: 1920, height: 1080, rgba: vec![] };
    assert_eq!(window_size(&big), (1600, 1000));
}

#[test]
fn blit_draws_nearest_pixels() {
    let f = PlayerFrame { width: 2, height: 1, rgba: vec![1, 2, 3, 255, 4, 5, 6, 255] };
    let l = letterbox((2, 1), (2, 1));
    assert_eq!(blit(&f, l, (2, 1)), vec![0x010203, 0x040506]);
    let l = Letterbox { x: 1, y: 1, width: 4, height: 1 };
    let out = blit(&f, l, (6, 2));
    assert_eq!(
        out,
        vec![0, 0, 0, 0, 0, 0, 0, 0x010203, 0x010203, 0x040506, 0x040506, 0]
    );
}

#[test]
fn play_position_counts_frames() {
    let p = PlayPosition::open(StreamCodec::H265).next((640, 480)).next((640, 480));
    assert_eq!(p.status("1.250"), "frame 2 · 1.250s · 640x480 h265");
    let p = p.restart();
    assert_eq!((p.frame_idx, p.size), (0, (640, 480)));
    assert!(wants_frame(0, 1, false));
    assert!(!wants_frame(1, 1, false));
    assert!(!wants_frame(0, 1, true));
}
