//! Point and splat files, against in-memory fixtures with hand-verifiable
//! values. The builder writes exactly the usual binary layout.
use glam::{Quat, Vec3};
use splattar::ply::header::{parse_header, PropertyType, MAX_LINE};
use splattar::ply::layout::{detect, Layout};
use splattar::ply::reader::{load_ply_from, PlyContents, RawColor, RawSplat};
use splattar::ply::writer::write_3dgs_ply;
use splattar::ply::PlyError;

/// A splat with its values activated, as a scene holds it.
struct Splat {
    position: Vec3,
    sh: Vec<f32>,
    opacity: f32,
    scale: Vec3,
    rotation: Quat,
}

fn f(bits: u32) -> f32 {
    f32::from_bits(bits)
}

fn vec3(bits: [u32; 3]) -> Vec3 {
    Vec3::new(f(bits[0]), f(bits[1]), f(bits[2]))
}

fn activate(s: &RawSplat) -> Splat {
    let log = vec3(s.scale);
    let r = s.rotation;
    Splat {
        position: vec3(s.position),
        sh: s.sh.iter().map(|&b| f(b)).collect(),
        opacity: 1.0 / (1.0 + (-f(s.opacity)).exp()),
        scale: Vec3::new(log.x.exp(), log.y.exp(), log.z.exp()),
        rotation: Quat::from_xyzw(f(r[0]), f(r[1]), f(r[2]), f(r[3])).normalize(),
    }
}

fn load_splats(data: &[u8]) -> (Vec<Splat>, u8) {
    match load_ply_from(data) {
        Ok(PlyContents::Splats { splats, sh_degree }) => {
            (splats.iter().map(activate).collect(), sh_degree)
        }
        other => panic!("expected splats, got {other:?}"),
    }
}

/// Build a splat ply: header + rows. `rest_per_channel` ∈ {0, 3, 8, 15}.
fn splat_ply(rows: &[Vec<f32>], rest_per_channel: usize, extra_prop: Option<&str>) -> Vec<u8> {
    let mut names: Vec<String> = vec!["x".into(), "y".into(), "z".into()];
    if let Some(extra) = extra_prop {
        names.push(extra.to_string()); // exercises the offset-driven path
    }
    for i in 0..3 {
        names.push(format!("f_dc_{i}"));
    }
    for i in 0..rest_per_channel * 3 {
        names.push(format!("f_rest_{i}"));
    }
    names.push("opacity".into());
    for i in 0..3 {
        names.push(format!("scale_{i}"));
    }
    for i in 0..4 {
        names.push(format!("rot_{i}"));
    }

    let mut out = format!(
        "ply\nformat binary_little_endian 1.0\ncomment fixture\nelement vertex {}\n",
        rows.len()
    )
    .into_bytes();
    for n in &names {
        out.extend_from_slice(format!("property float {n}\n").as_bytes());
    }
    out.extend_from_slice(b"end_header\n");
    for row in rows {
        assert_eq!(row.len(), names.len(), "fixture row width mismatch");
        for v in row {
            out.extend_from_slice(&v.to_le_bytes());
        }
    }
    out
}

/// One canonical degree-1 splat row with distinct, recognizable values.
/// rest (channel-major on disk): red=[1,2,3], green=[4,5,6], blue=[7,8,9] (×0.1).
fn deg1_row() -> Vec<f32> {
    let mut row = vec![1.0, 2.0, 3.0]; // pos
    row.extend([0.5, -0.5, 0.25]); // dc
    row.extend((1..=9).map(|i| i as f32 * 0.1)); // f_rest_0..8
    row.push(0.0); // opacity logit → 0.5
    row.extend([0.1f32.ln(), 0.2f32.ln(), 0.3f32.ln()]); // scales → 0.1, 0.2, 0.3
    row.extend([1.0, 0.0, 0.0, 0.0]); // rot: w=1 identity (w first on disk)
    row
}

#[test]
fn splat_deg1_values_and_interleave() {
    let data = splat_ply(&[deg1_row()], 3, None);
    let (s, sh_degree) = load_splats(&data);
    assert_eq!(s.len(), 1);
    assert_eq!(sh_degree, 1);
    assert_eq!(s[0].position, Vec3::new(1.0, 2.0, 3.0));
    // Coeff-major interleave: c0.rgb, then c1..c3 as (red_i, green_i, blue_i).
    let expect = [
        0.5, -0.5, 0.25, // c0
        0.1, 0.4, 0.7, // c1
        0.2, 0.5, 0.8, // c2
        0.3, 0.6, 0.9, // c3
    ];
    assert_eq!(s[0].sh.len(), expect.len());
    for (got, want) in s[0].sh.iter().zip(expect.iter()) {
        assert!((got - want).abs() < 1e-6, "sh interleave: got {got}, want {want}");
    }
    assert!((s[0].opacity - 0.5).abs() < 1e-6, "sigmoid(0) = 0.5");
    assert!((s[0].scale - Vec3::new(0.1, 0.2, 0.3)).length() < 1e-6, "exp(ln x) = x");
    assert!((s[0].rotation - Quat::IDENTITY).length() < 1e-6, "rot_0 is w");
}

#[test]
fn splat_nonidentity_quat_is_normalized_and_reordered() {
    // ply order (w,x,y,z) = (2,0,0,2) → normalized (w,x,y,z) = (0.707.., 0, 0, 0.707..)
    let mut row = deg1_row();
    let n = row.len();
    row[n - 4..].copy_from_slice(&[2.0, 0.0, 0.0, 2.0]);
    let data = splat_ply(&[row], 3, None);
    let (s, _) = load_splats(&data);
    let q = s[0].rotation;
    let inv = std::f32::consts::FRAC_1_SQRT_2;
    assert!((q.w - inv).abs() < 1e-6 && (q.z - inv).abs() < 1e-6);
    assert!((q.length() - 1.0).abs() < 1e-6);
}

#[test]
fn splat_deg0_no_rest() {
    let mut row = vec![0.0, 0.0, 0.0, 0.5, 0.5, 0.5];
    row.push(10.0); // opacity → ~1.0
    row.extend([0.0, 0.0, 0.0]); // scales → 1.0
    row.extend([1.0, 0.0, 0.0, 0.0]);
    let data = splat_ply(&[row], 0, None);
    let (s, sh_degree) = load_splats(&data);
    assert_eq!(sh_degree, 0);
    assert_eq!(s[0].sh.len(), 3);
    assert!(s[0].opacity > 0.99);
    assert_eq!(s[0].scale, Vec3::ONE);
}

#[test]
fn extra_property_takes_offset_path_with_same_values() {
    // Insert a dummy float property after xyz → not canonical order anymore.
    let mut row = deg1_row();
    row.insert(3, 42.0);
    let data = splat_ply(&[row], 3, Some("nx"));
    let (s, _) = load_splats(&data);
    assert_eq!(s[0].position, Vec3::new(1.0, 2.0, 3.0));
    assert!((s[0].sh[3] - 0.1).abs() < 1e-6 && (s[0].sh[4] - 0.4).abs() < 1e-6);
    assert!((s[0].scale - Vec3::new(0.1, 0.2, 0.3)).length() < 1e-6);
}

#[test]
fn point_cloud_uchar_rgb() {
    let mut out = b"ply\nformat binary_little_endian 1.0\nelement vertex 2\n".to_vec();
    for n in ["x", "y", "z"] {
        out.extend_from_slice(format!("property float {n}\n").as_bytes());
    }
    for n in ["red", "green", "blue"] {
        out.extend_from_slice(format!("property uchar {n}\n").as_bytes());
    }
    out.extend_from_slice(b"end_header\n");
    for (p, c) in [([0.0f32, 1.0, 2.0], [10u8, 20, 30]), ([3.0, 4.0, 5.0], [200, 150, 100])] {
        for v in p {
            out.extend_from_slice(&v.to_le_bytes());
        }
        out.extend_from_slice(&c);
    }
    let pc = match load_ply_from(out.as_slice()) {
        Ok(PlyContents::Points(pc)) => pc,
        other => panic!("expected points, got {other:?}"),
    };
    assert_eq!(pc.len(), 2);
    assert_eq!(vec3(pc[1].position), Vec3::new(3.0, 4.0, 5.0));
    assert!(matches!(pc[0].color, RawColor::Bytes([10, 20, 30])));
    assert!(matches!(pc[1].color, RawColor::Bytes([200, 150, 100])));
}

#[test]
fn ascii_format_is_rejected() {
    let data = b"ply\nformat ascii 1.0\nelement vertex 0\nproperty float x\nend_header\n";
    match load_ply_from(data.as_slice()) {
        Err(PlyError::UnsupportedFormat(f)) => assert!(f.contains("ascii")),
        other => panic!("expected UnsupportedFormat, got {other:?}"),
    }
}

#[test]
fn truncated_payload_reports_eof() {
    let mut data = splat_ply(&[deg1_row(), deg1_row()], 3, None);
    data.truncate(data.len() - 40); // cut into the second row
    match load_ply_from(data.as_slice()) {
        Err(PlyError::UnexpectedEof { expected: 2, .. }) => {}
        other => panic!("expected UnexpectedEof, got {other:?}"),
    }
}

#[test]
fn missing_rot_is_unknown_layout() {
    // Build a splat header but drop rot_3 (truncate names manually).
    let mut out = b"ply\nformat binary_little_endian 1.0\nelement vertex 0\n".to_vec();
    for n in [
        "x", "y", "z", "f_dc_0", "f_dc_1", "f_dc_2", "opacity", "scale_0", "scale_1", "scale_2",
        "rot_0", "rot_1", "rot_2",
    ] {
        out.extend_from_slice(format!("property float {n}\n").as_bytes());
    }
    out.extend_from_slice(b"end_header\n");
    match load_ply_from(out.as_slice()) {
        Err(PlyError::UnknownLayout { properties }) => assert!(properties.contains("rot_2")),
        other => panic!("expected UnknownLayout, got {other:?}"),
    }
}

#[test]
fn garbage_is_not_ply() {
    assert!(matches!(
        load_ply_from(&b"not a ply at all\n"[..]),
        Err(PlyError::NotPly)
    ));
}

#[test]
fn written_splats_are_read_back_bit_for_bit() {
    let splats: Vec<RawSplat> = (0..3u32)
        .map(|i| RawSplat {
            position: [i, 2 * i + 1, 0x7fc0_0001],
            sh: (0..48).map(|k| 1000 * i + k).collect(),
            opacity: 0x8000_0000 + i,
            scale: [7, 8, 9 + i],
            rotation: [10, 11, 12, 13 + i],
        })
        .collect();
    let bytes = write_3dgs_ply(&splats);
    match load_ply_from(&bytes) {
        Ok(PlyContents::Splats { splats: got, sh_degree }) => {
            assert_eq!(sh_degree, 3);
            assert_eq!(got.len(), 3);
            for (a, b) in got.iter().zip(&splats) {
                assert_eq!(a.position, b.position);
                assert_eq!(a.sh, b.sh);
                assert_eq!(a.opacity, b.opacity);
                assert_eq!(a.scale, b.scale);
                assert_eq!(a.rotation, b.rotation);
            }
        }
        other => panic!("expected splats, got {other:?}"),
    }
}

#[test]
fn header_and_layout_of_a_splat_file() {
    let data = splat_ply(&[deg1_row()], 3, None);
    let (header, end) = parse_header(&data).unwrap();
    assert_eq!(data.len() - end, 4 * 23);
    let vertex = header.vertex().unwrap();
    assert_eq!((vertex.count, vertex.stride()), (1, 92));
    assert_eq!(vertex.offset_of("f_dc_1"), Some((16, PropertyType::Float)));
    assert_eq!(vertex.offset_of("nx"), None);
    match detect(&header) {
        Ok(Layout::Gaussian3d(l)) => assert!(l.fast_path),
        other => panic!("expected splats, got {other:?}"),
    }
    let data = splat_ply(&[], 3, Some("nx"));
    match detect(&parse_header(&data).unwrap().0) {
        Ok(Layout::Gaussian3d(l)) => assert!(!l.fast_path),
        other => panic!("expected splats, got {other:?}"),
    }
}

#[test]
fn property_types_have_two_names() {
    for (a, b, n) in [
        ("char", "int8", 1),
        ("uchar", "uint8", 1),
        ("short", "int16", 2),
        ("ushort", "uint16", 2),
        ("int", "int32", 4),
        ("uint", "uint32", 4),
        ("float", "float32", 4),
        ("double", "float64", 8),
    ] {
        let t = PropertyType::parse(a).unwrap();
        assert_eq!(PropertyType::parse(b), Some(t));
        assert_eq!(t.size(), n);
    }
    assert_eq!(PropertyType::parse("half"), None);
}

#[test]
fn broken_headers_say_why() {
    let start = "ply\nformat binary_little_endian 1.0\n";
    let message = |text: &str| match load_ply_from(text.as_bytes()) {
        Err(e) => e.message(),
        Ok(_) => panic!("{text:?} must not load"),
    };
    assert_eq!(message("x\n"), "not a ply file (missing 'ply' magic)");
    assert_eq!(message(start), "malformed ply header: eof inside header");
    assert_eq!(
        message(&format!("{start}property float x\n")),
        "malformed ply header: property before element"
    );
    assert_eq!(
        message(&format!("{start}element vertex many\n")),
        "malformed ply header: bad element count: element vertex many"
    );
    assert_eq!(
        message(&format!("{start}element vertex 1\nproperty half x\n")),
        "malformed ply header: unknown type: half"
    );
    assert_eq!(
        message(&format!("{start}elephant\n")),
        "malformed ply header: unexpected keyword: elephant"
    );
    assert_eq!(
        message("ply\nelement vertex 0\nend_header\n"),
        "malformed ply header: missing format line"
    );
    assert_eq!(
        message(&format!("{start}end_header\n")),
        "no `vertex` element in ply header"
    );
    let long = "c".repeat(MAX_LINE + 10);
    assert_eq!(
        message(&format!("{start}comment {long}\n")),
        "malformed ply header: header line too long"
    );
    // A text line that is not UTF-8.
    let mut bytes = start.as_bytes().to_vec();
    bytes.extend_from_slice(b"comment \xff\xfe\n");
    match load_ply_from(&bytes) {
        Err(e) => assert_eq!(e.message(), "malformed ply header: non-utf8 header line"),
        Ok(_) => panic!("must not load"),
    }
}

#[test]
fn other_rest_counts_are_refused() {
    let mut out = b"ply\nformat binary_little_endian 1.0\nelement vertex 0\n".to_vec();
    for n in [
        "x", "y", "z", "f_dc_0", "f_dc_1", "f_dc_2", "f_rest_0", "f_rest_1", "opacity", "scale_0",
        "scale_1", "scale_2", "rot_0", "rot_1", "rot_2", "rot_3",
    ] {
        out.extend_from_slice(format!("property float {n}\n").as_bytes());
    }
    out.extend_from_slice(b"end_header\n");
    assert!(matches!(load_ply_from(&out), Err(PlyError::BadShCount(2))));
}

#[test]
fn double_positions_are_refused_by_name() {
    let mut data = splat_ply(&[], 0, None);
    let text = String::from_utf8(data.clone()).unwrap();
    data = text.replace("property float x\n", "property double x\n").into_bytes();
    match load_ply_from(&data) {
        Err(PlyError::BadPropertyType(name)) => assert_eq!(name, "x"),
        other => panic!("expected BadPropertyType, got {other:?}"),
    }
}
