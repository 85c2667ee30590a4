use splattar::hevc_demux::{
    be16, be32, find_child, hevc_track_in_moov, parse_hvcc, rotation_from_matrix, scan_top_level,
    walk, TopLevelStep,
};

#[test]
fn hvcc_record_parses() {
    // Minimal record: 22 bytes of config (lengthSizeMinusOne=3 at byte
    // 21), one array of one SPS NAL [0x42, 0x01].
    let mut rec = vec![0u8; 22];
    rec[0] = 1; // configurationVersion
    rec[21] = 0xfc | 3; // reserved | lengthSizeMinusOne
    rec.push(1); // numOfArrays
    rec.push(0x80 | 33); // array_completeness | NAL type SPS
    rec.extend_from_slice(&1u16.to_be_bytes()); // numNalus
    rec.extend_from_slice(&2u16.to_be_bytes()); // nalUnitLength
    rec.extend_from_slice(&[0x42, 0x01]);
    let (len_size, vps, sps, pps) = parse_hvcc(&rec).unwrap();
    assert_eq!(len_size, 4);
    assert!(vps.is_empty() && pps.is_empty());
    assert_eq!(sps, vec![vec![0x42, 0x01]]);
}

#[test]
fn box_walker_finds_nested() {
    // [outer [inner "payload"]]
    let inner_payload = b"payload";
    let mut inner = Vec::new();
    inner.extend_from_slice(&(8 + inner_payload.len() as u32).to_be_bytes());
    inner.extend_from_slice(b"innr");
    inner.extend_from_slice(inner_payload);
    let mut outer = Vec::new();
    outer.extend_from_slice(&(8 + inner.len() as u32).to_be_bytes());
    outer.extend_from_slice(b"outr");
    outer.extend_from_slice(&inner);
    let out = find_child(&outer, b"outr").unwrap();
    let inn = find_child(out, b"innr").unwrap();
    assert_eq!(inn, inner_payload);
}

fn boxed(name: &[u8; 4], payload: &[u8]) -> Vec<u8> {
    let mut out = Vec::new();
    out.extend_from_slice(&(8 + payload.len() as u32).to_be_bytes());
    out.extend_from_slice(name);
    out.extend_from_slice(payload);
    out
}

#[test]
fn numbers_are_big_endian() {
    let b = [1, 2, 3, 4, 5];
    assert_eq!(be32(&b, 1), 0x02030405);
    assert_eq!(be16(&b, 3), 0x0405);
}

#[test]
fn walker_stops_at_a_broken_box() {
    let mut data = boxed(b"aaaa", &[1, 2]);
    data.extend_from_slice(&boxed(b"bbbb", &[]));
    data.extend_from_slice(&[0, 0, 0, 50]);
    data.extend_from_slice(b"cccc");
    let found = walk(&data);
    assert_eq!(found.len(), 2);
    assert_eq!((&found[0].fourcc, found[0].start, found[0].end), (b"aaaa", 8, 10));
    assert_eq!((&found[1].fourcc, found[1].start, found[1].end), (b"bbbb", 18, 18));
    assert!(find_child(&data, b"cccc").is_none());
}

#[test]
fn truncated_hvcc_is_refused() {
    assert!(parse_hvcc(&[1; 10]).is_none());
}

#[test]
fn lengths_have_one_two_or_four_bytes() {
    for (byte, size) in [(0xfc, Some(1)), (0xfd, Some(2)), (0xfe, None), (0xff, Some(4))] {
        let mut rec = [0u8; 23];
        rec[21] = byte;
        assert_eq!(parse_hvcc(&rec).map(|r| r.0), size);
    }
}

#[test]
fn matrices_turn_by_quarters() {
    let one = 0x1_0000;
    assert_eq!(rotation_from_matrix(one, 0, 0, one), 0);
    assert_eq!(rotation_from_matrix(0, one, -one, 0), 90);
    assert_eq!(rotation_from_matrix(-one, 0, 0, -one), 180);
    assert_eq!(rotation_from_matrix(0, -one, one, 0), 270);
}

#[test]
fn movie_box_is_found_behind_others() {
    let ftyp = boxed(b"ftyp", &[0; 8]);
    assert_eq!(scan_top_level(&ftyp[..8], 0, 1000), TopLevelStep::Next(16));
    let moov = boxed(b"moov", &[0; 92]);
    assert_eq!(scan_top_level(&moov[..8], 16, 1000), TopLevelStep::Moov(24, 92));
    let long = [0, 0, 0, 1, b'm', b'd', b'a', b't'];
    assert_eq!(scan_top_level(&long, 16, 1000), TopLevelStep::NeedLongHeader);
}

fn hevc_movie(entry: &[u8; 4]) -> Vec<u8> {
    let mut tkhd = vec![0u8; 84];
    tkhd[12..16].copy_from_slice(&7u32.to_be_bytes());
    // A quarter turn clockwise.
    tkhd[40..44].copy_from_slice(&0i32.to_be_bytes());
    tkhd[44..48].copy_from_slice(&0x1_0000i32.to_be_bytes());
    tkhd[52..56].copy_from_slice(&(-0x1_0000i32).to_be_bytes());
    tkhd[56..60].copy_from_slice(&0i32.to_be_bytes());
    let mut hvcc = vec![0u8; 22];
    hvcc[0] = 1;
    hvcc[21] = 0xff;
    hvcc.push(1);
    hvcc.push(33);
    hvcc.extend_from_slice(&[0, 1, 0, 3, 0x42, 1, 9]);
    let mut colr = b"nclx".to_vec();
    colr.extend_from_slice(&[0, 9, 0, 18, 0, 9, 0]);
    let mut sample = vec![0u8; 78];
    sample.extend_from_slice(&boxed(b"hvcC", &hvcc));
    sample.extend_from_slice(&boxed(b"colr", &colr));
    let mut stsd = vec![0, 0, 0, 0, 0, 0, 0, 1];
    stsd.extend_from_slice(&boxed(entry, &sample));
    let stbl = boxed(b"stbl", &boxed(b"stsd", &stsd));
    let minf = boxed(b"minf", &stbl);
    let mut trak = boxed(b"tkhd", &tkhd);
    trak.extend_from_slice(&boxed(b"mdia", &minf));
    boxed(b"trak", &trak)
}

#[test]
fn hevc_track_is_read_from_the_movie() {
    let info = hevc_track_in_moov(&hevc_movie(b"hvc1")).unwrap();
    assert_eq!(info.track_id, 7);
    assert_eq!(&info.fourcc, b"hvc1");
    assert_eq!(info.length_size, 4);
    assert_eq!(info.sps, vec![vec![0x42, 1, 9]]);
    assert!(info.vps.is_empty() && info.pps.is_empty());
    assert_eq!(info.colr, Some((9, 18, 9)));
    assert_eq!(info.rotation, 90);
}

#[test]
fn other_tracks_are_passed_over() {
    assert!(hevc_track_in_moov(&hevc_movie(b"avc1")).is_none());
    assert!(hevc_track_in_moov(&[]).is_none());
}
