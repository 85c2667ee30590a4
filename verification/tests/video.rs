use splattar::hevc_demux::HevcTrackInfo;
use splattar::keyframes::{Candidate, KeyframeSelector};
use splattar::mp4_reader::{
    crop_chroma, crop_luma, is_wide_gamut, le_u16, nv12_to_planes, split_slices, to_display, Codec,
    Window,
};
use splattar::nvdec::{NvDecError, Nv12Frame};
use splattar::nvdec_h265::H265Frame;
use splattar::reorder::{Action, Event, ReorderQueue};
use splattar::sharpness::laplacian_sums;
use splattar::stream::{
    decode_failed, presentation_time, H264Stream, H265Stream, SampleCursor, VideoError,
};

fn packed(nals: &[&[u8]], length_size: usize) -> Vec<u8> {
    let mut out = Vec::new();
    for n in nals {
        let len = (n.len() as u32).to_be_bytes();
        out.extend_from_slice(&len[4 - length_size..]);
        out.extend_from_slice(n);
    }
    out
}

#[test]
fn packed_slices_are_split_again() {
    let nals: [&[u8]; 4] = [&[0x67, 9], &[0x65, 1, 2], &[0x41, 3], &[0x06]];
    for size in 1..=4 {
        let data = packed(&nals, size);
        let got = split_slices(Codec::H264, &data, size);
        assert_eq!(got, vec![nals[1], nals[2]]);
    }
    let nals: [&[u8]; 3] = [&[0x42, 1], &[0x26, 1, 7], &[0x02, 1, 8]];
    let data = packed(&nals, 4);
    assert_eq!(split_slices(Codec::H265, &data, 4), vec![nals[1], nals[2]]);
}

#[test]
fn split_stops_at_a_bad_length() {
    let mut data = packed(&[&[0x65, 1]], 2);
    data.extend_from_slice(&[0, 9, 0x65]);
    assert_eq!(split_slices(Codec::H264, &data, 2).len(), 1);
    assert!(split_slices(Codec::H264, &[0, 0, 0x65], 2).is_empty());
}

#[test]
fn window_is_cut_out_of_the_planes() {
    // Eight columns, four rows.
    let y: Vec<u8> = (0..32).collect();
    let uv: Vec<u8> = (100..116).collect();
    let w = Window { x0: 2, y0: 0, width: 4, height: 4 };
    assert_eq!(
        crop_luma(&y, w, 8),
        vec![2, 3, 4, 5, 10, 11, 12, 13, 18, 19, 20, 21, 26, 27, 28, 29]
    );
    assert_eq!(crop_chroma(&uv, w, 8, 0), vec![102, 104, 110, 112]);
    assert_eq!(crop_chroma(&uv, w, 8, 1), vec![103, 105, 111, 113]);
    let f = nv12_to_planes(
        &Nv12Frame { width: 8, height: 4, y: y.clone(), uv: uv.clone(), stride: 8 },
        w,
    );
    assert_eq!((f.width, f.height), (4, 4));
    assert_eq!(f.u, vec![102, 104, 110, 112]);
    assert_eq!(f.v, vec![103, 105, 111, 113]);
}

#[test]
fn ten_bit_samples_are_reduced_or_folded() {
    // The ten bits are the high ones.
    let y16: [u16; 4] = [0, 4 << 6, 1023 << 6, 512 << 6];
    let uv16: [u16; 2] = [400 << 6, 600 << 6];
    let bytes = |v: &[u16]| v.iter().flat_map(|s| s.to_le_bytes()).collect::<Vec<u8>>();
    assert_eq!(le_u16(&bytes(&y16)), y16.to_vec());
    assert_eq!(le_u16(&[1, 2, 3]), vec![0x201]);
    let frame = H265Frame {
        width: 2,
        height: 2,
        stride: 2,
        bit_depth: 10,
        y: bytes(&y16),
        uv: bytes(&uv16),
    };
    let w = Window { x0: 0, y0: 0, width: 2, height: 2 };
    let fold = |a: u16, b: u16, c: u16| ((a / 8) as u8, (b / 8) as u8, (c / 8) as u8);
    let f = to_display(&frame, w, false, &fold);
    assert_eq!(f.y, vec![0, 1, 255, 128]);
    assert_eq!((f.u, f.v), (vec![100], vec![150]));
    let f = to_display(&frame, w, true, &fold);
    assert_eq!(f.y, vec![0, 0, 127, 64]);
    assert_eq!((f.u, f.v), (vec![50], vec![75]));
}

#[test]
fn eight_bit_frames_are_copied() {
    let frame = H265Frame {
        width: 2,
        height: 2,
        stride: 2,
        bit_depth: 8,
        y: vec![1, 2, 3, 4],
        uv: vec![5, 6],
    };
    let w = Window { x0: 0, y0: 0, width: 2, height: 2 };
    let f = to_display(&frame, w, true, &|_: u16, _: u16, _: u16| (0u8, 0u8, 0u8));
    assert_eq!((f.y, f.u, f.v), (vec![1, 2, 3, 4], vec![5], vec![6]));
}

#[test]
fn gamut_comes_from_the_container_or_the_depth() {
    assert!(is_wide_gamut(Some((9, 18, 9)), 8));
    assert!(!is_wide_gamut(Some((1, 1, 1)), 10));
    assert!(is_wide_gamut(None, 10));
    assert!(!is_wide_gamut(None, 8));
}

#[test]
fn video_errors_have_their_messages() {
    assert_eq!(VideoError::Io("gone".to_string()).message(), "i/o error: gone");
    assert_eq!(VideoError::Mp4("bad".to_string()).message(), "mp4 demux error: bad");
    assert_eq!(
        VideoError::NoH264Track.message(),
        "no decodable video track in file (H.264 and H.265/HEVC are supported)"
    );
    assert_eq!(
        decode_failed(12, &NvDecError::NoDecodeQueue).message(),
        "decode error at sample 12: no video-decode-capable device/queue found"
    );
    assert_eq!(
        VideoError::NvDec(NvDecError::Missing("q".to_string())).message(),
        "nvdec: driver lacks q"
    );
}

#[test]
fn samples_are_read_once_in_order() {
    let mut c = SampleCursor::new(2);
    assert_eq!(c.sample_count(), 2);
    assert_eq!(c.next_sample(), Some(1));
    assert_eq!(c.next_sample(), Some(2));
    assert_eq!(c.next_sample(), None);
    assert_eq!(c.next_sample(), None);
    assert_eq!(presentation_time(1000, -24), 976);
    assert_eq!(presentation_time(u64::MAX, 1), 1i128 << 64);
    assert_eq!(presentation_time(0, i32::MIN), -2147483648);
}

#[test]
fn h264_track_needs_both_parameter_sets() {
    assert!(matches!(
        H264Stream::open(&vec![], &vec![vec![0x68]], 3),
        Err(VideoError::NoH264Track)
    ));
    match H264Stream::open(&vec![vec![0x67, 66]], &vec![vec![0x68]], 3) {
        Err(e) => assert_eq!(
            e.message(),
            "decode error at sample 0: SPS parse: bitstream ended early"
        ),
        Ok(_) => panic!("the set is cut short"),
    }
}

#[test]
fn hevc_track_names_what_it_lacks() {
    let mut info = HevcTrackInfo {
        track_id: 1,
        fourcc: *b"hvc1",
        length_size: 4,
        vps: vec![],
        sps: vec![],
        pps: vec![],
        colr: None,
        rotation: 0,
    };
    let message = |i: &HevcTrackInfo| match H265Stream::open(i) {
        Err(e) => e.message(),
        Ok(_) => panic!("nothing to open"),
    };
    assert_eq!(message(&info), "decode error at sample 0: hvcC without VPS");
    info.vps.push(vec![0x40, 1]);
    assert_eq!(message(&info), "decode error at sample 0: hvcC without SPS");
    info.sps.push(vec![0x42, 1]);
    assert_eq!(message(&info), "decode error at sample 0: hvcC without PPS");
    info.pps.push(vec![0x44, 1]);
    assert_eq!(
        message(&info),
        "decode error at sample 0: VPS parse: malformed: VPS too short"
    );
}

#[test]
fn frames_come_out_in_presentation_order() {
    // Decode order I P B B P B B, depth two.
    let times = [0, 3, 1, 2, 6, 4, 5];
    let mut q = ReorderQueue::new(2);
    let mut out: Vec<i128> = Vec::new();
    for t in times {
        if let Some(x) = q.push(t, t) {
            out.push(x);
        }
    }
    while let Some(x) = q.pop_earliest() {
        out.push(x);
    }
    assert_eq!(out, vec![0, 1, 2, 3, 4, 5, 6]);
}

#[test]
fn every_frame_is_presented_once() {
    let samples = [Some(0), Some(3), None, Some(1), Some(2), None];
    let mut q = ReorderQueue::new(2);
    let mut out: Vec<i128> = Vec::new();
    let mut read = 0;
    loop {
        let event = match samples.get(read) {
            Some(Some(t)) => Event::Decoded(*t, *t),
            Some(None) => Event::Skipped,
            None => Event::Ended,
        };
        read += 1;
        match q.step(event) {
            Action::ReadOn => {}
            Action::Present(x) => out.push(x),
            Action::Finished => break,
        }
    }
    assert_eq!(out, vec![0, 1, 2, 3]);
    assert!(matches!(q.step(Event::Ended), Action::Finished));
}

#[test]
fn no_reordering_without_depth() {
    let mut q = ReorderQueue::new(0);
    assert_eq!(q.push(7, 'a'), Some('a'));
    assert_eq!(q.pop_earliest(), None);
}

#[test]
fn sharpest_frame_of_each_window_is_kept() {
    let mut s = KeyframeSelector::new(0);
    for (i, (sharp, new)) in
        [(5, true), (9, false), (9, false), (2, true), (1, false), (4, true)].iter().enumerate()
    {
        let c = Candidate { time: i as i64, sharpness: *sharp, frame: i };
        assert!(s.offer(c, *new));
    }
    let kept: Vec<usize> = s.finish().iter().map(|c| c.frame).collect();
    assert_eq!(kept, vec![1, 3, 5]);
}

#[test]
fn keyframes_stop_at_the_cap() {
    let mut s = KeyframeSelector::new(2);
    assert!(s.offer(Candidate { time: 8, sharpness: 1, frame: 'a' }, true));
    assert!(s.offer(Candidate { time: 2, sharpness: 1, frame: 'b' }, true));
    assert!(!s.offer(Candidate { time: 9, sharpness: 1, frame: 'c' }, true));
    let kept: Vec<char> = s.finish().iter().map(|c| c.frame).collect();
    assert_eq!(kept, vec!['b', 'a']);
}

#[test]
fn only_the_first_windows_count_under_a_cap() {
    // Three windows: the first frame starts one without saying so.
    let stream = [(3, 1, false), (1, 4, false), (0, 2, true), (2, 2, false), (5, 9, true)];
    let select = |cap: usize| -> Vec<i64> {
        let mut s = KeyframeSelector::new(cap);
        for (time, sharpness, new) in stream {
            if !s.offer(Candidate { time, sharpness, frame: () }, new) {
                break;
            }
        }
        s.finish().iter().map(|c| c.time).collect()
    };
    assert_eq!(select(0), vec![0, 1, 5]);
    assert_eq!(select(2), vec![0, 1]);
    assert_eq!(select(1), vec![1]);
}

#[test]
fn laplacian_of_a_spot() {
    assert!(laplacian_sums(&[0; 9], 3, 3).is_none());
    let flat = laplacian_sums(&[7; 36], 6, 6).unwrap();
    assert_eq!((flat.count, flat.sum, flat.sum_of_squares), (1, 0, 0));
    let mut y = [0u8; 36];
    y[2 * 6 + 2] = 10;
    y[2 * 6 + 3] = 1;
    let spot = laplacian_sums(&y, 6, 6).unwrap();
    assert_eq!((spot.count, spot.sum, spot.sum_of_squares), (1, 39, 39 * 39));
}
