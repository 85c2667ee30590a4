use splattar::colmap::{
    check_size, images_dir, intrinsics, needs_resize, read_cameras, read_images, read_points,
    view_order, ColmapError,
};

fn cameras() -> Vec<u8> {
    let mut d = 3u64.to_le_bytes().to_vec();
    for (id, model, params) in [
        (7u32, 0u32, vec![500.0f64, 320.0, 240.0]),
        (8, 1, vec![501.0, 502.0, 321.0, 241.0]),
        (9, 2, vec![503.0, 322.0, 242.0, 0.01]),
    ] {
        d.extend_from_slice(&id.to_le_bytes());
        d.extend_from_slice(&model.to_le_bytes());
        d.extend_from_slice(&640u64.to_le_bytes());
        d.extend_from_slice(&480u64.to_le_bytes());
        for p in params {
            d.extend_from_slice(&p.to_le_bytes());
        }
    }
    d
}

#[test]
fn cameras_of_three_models() {
    let list = read_cameras(&cameras()).unwrap();
    assert_eq!(list.len(), 3);
    let f = f64::from_bits;
    let c = intrinsics(&list, 7).unwrap();
    assert_eq!((f(c.fx), f(c.fy), f(c.cx), f(c.cy)), (500.0, 500.0, 320.0, 240.0));
    assert_eq!((c.width, c.height, c.radial), (640, 480, None));
    let c = intrinsics(&list, 8).unwrap();
    assert_eq!((f(c.fx), f(c.fy), f(c.cx), f(c.cy)), (501.0, 502.0, 321.0, 241.0));
    let c = intrinsics(&list, 9).unwrap();
    assert_eq!((f(c.fx), f(c.fy)), (503.0, 503.0));
    assert_eq!(c.radial.map(f), Some(0.01));
    match intrinsics(&list, 1) {
        Err(e) => assert_eq!(
            e.message(),
            "malformed colmap file: image references unknown camera"
        ),
        Ok(_) => panic!("there is no such camera"),
    }
}

#[test]
fn bad_camera_files() {
    let d = cameras();
    match read_cameras(&d[..d.len() - 1]) {
        Err(e) => assert_eq!(e.message(), "i/o error: failed to fill whole buffer"),
        Ok(_) => panic!("cut short"),
    }
    let mut d = cameras();
    d[12] = 4;
    match read_cameras(&d) {
        Err(e) => assert_eq!(
            e.message(),
            "unsupported camera model id 4 (supported: SIMPLE_PINHOLE, PINHOLE, SIMPLE_RADIAL)"
        ),
        Ok(_) => panic!("no such model"),
    }
}

fn image(name: &[u8], points: u64) -> Vec<u8> {
    let mut d = 3u32.to_le_bytes().to_vec();
    for v in [1.0f64, 0.0, 0.25, 0.5, -1.0, 2.0, 3.5] {
        d.extend_from_slice(&v.to_le_bytes());
    }
    d.extend_from_slice(&7u32.to_le_bytes());
    d.extend_from_slice(name);
    d.push(0);
    d.extend_from_slice(&points.to_le_bytes());
    d.resize(d.len() + 24 * points as usize, 0xaa);
    d
}

#[test]
fn images_are_read_past_their_points() {
    let mut d = 2u64.to_le_bytes().to_vec();
    d.extend_from_slice(&image(b"a.jpg", 3));
    d.extend_from_slice(&image("größe.png".as_bytes(), 0));
    let list = read_images(&d).unwrap();
    assert_eq!(list.len(), 2);
    assert_eq!((list[0].name.as_str(), list[0].camera_id), ("a.jpg", 7));
    assert_eq!(list[1].name, "größe.png");
    assert_eq!(list[1].quat_wxyz.map(f64::from_bits), [1.0, 0.0, 0.25, 0.5]);
    assert_eq!(list[1].t.map(f64::from_bits), [-1.0, 2.0, 3.5]);
    let mut d = 1u64.to_le_bytes().to_vec();
    d.extend_from_slice(&image(b"\xff", 0));
    match read_images(&d) {
        Err(e) => assert_eq!(e.message(), "malformed colmap file: non-utf8 image name"),
        Ok(_) => panic!("the name is no text"),
    }
}

#[test]
fn points_are_read_past_their_tracks() {
    let mut d = 2u64.to_le_bytes().to_vec();
    for (i, track) in [(1.0f64, 2u64), (4.0, 0)] {
        d.extend_from_slice(&99u64.to_le_bytes());
        for k in 0..3 {
            d.extend_from_slice(&(i + k as f64).to_le_bytes());
        }
        d.extend_from_slice(&[10, 20, 30]);
        d.extend_from_slice(&0.5f64.to_le_bytes());
        d.extend_from_slice(&track.to_le_bytes());
        d.resize(d.len() + 8 * track as usize, 0);
    }
    let list = read_points(&d).unwrap();
    assert_eq!(list.len(), 2);
    assert_eq!(list[0].position.map(f64::from_bits), [1.0, 2.0, 3.0]);
    assert_eq!(list[1].position.map(f64::from_bits), [4.0, 5.0, 6.0]);
    assert_eq!(list[1].rgb, [10, 20, 30]);
    assert!(matches!(read_points(&d[..40]), Err(ColmapError::Io(_))));
}

#[test]
fn image_directories_and_sizes() {
    assert_eq!(images_dir(4, true), "images_4");
    assert_eq!(images_dir(4, false), "images");
    assert_eq!(images_dir(1, true), "images");
    assert!(needs_resize(4, false) && !needs_resize(4, true));
    assert!(!needs_resize(1, false) && !needs_resize(0, false));
    assert!(check_size("a", (4, 3), (4, 3)).is_ok());
    match check_size("a", (4, 3), (4, 2)) {
        Err(e) => assert_eq!(
            e.message(),
            "malformed colmap file: a: size 4x3 != dataset 4x2"
        ),
        Ok(_) => panic!("the sizes differ"),
    }
}

#[test]
fn remaining_errors_have_their_messages() {
    assert_eq!(
        ColmapError::NoSparseModel("/d".to_string()).message(),
        "no sparse model found under /d (looked for sparse/0 and sparse)"
    );
    assert_eq!(
        ColmapError::Image("p.jpg".to_string(), "bad".to_string()).message(),
        "image load failed for p.jpg: bad"
    );
}

#[test]
fn views_are_ordered_by_name() {
    let mut data = 5u64.to_le_bytes().to_vec();
    for name in ["b.png", "a.png", "b", "a.png", "B.png"] {
        data.extend(image(name.as_bytes(), 0));
    }
    let images = read_images(&data).unwrap();
    assert_eq!(view_order(&images), vec![4, 1, 3, 2, 0]);
    assert_eq!(view_order(&Vec::new()), Vec::<usize>::new());
}
