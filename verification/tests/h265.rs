use splattar::bitstream::{BitReader, H264Error};
use splattar::h265::{
    is_idr, is_irap, is_reference, is_vcl, nal_type, parse_pps, parse_slice_header, parse_sps,
    parse_st_rps, parse_vps, H265Pps, H265SliceType, H265Sps, StRps, NAL_CRA, NAL_IDR_N_LP,
    NAL_IDR_W_RADL, NAL_SPS,
};

/// Bit-writer for hand-building test bitstreams.
struct Bw {
    bits: Vec<bool>,
}

impl Bw {
    fn new() -> Self {
        Self { bits: Vec::new() }
    }

    fn u(&mut self, v: u32, n: u32) {
        for i in (0..n).rev() {
            self.bits.push((v >> i) & 1 == 1);
        }
    }

    fn ue(&mut self, v: u32) {
        let vp = v + 1;
        let n = 32 - vp.leading_zeros();
        self.u(0, n - 1);
        self.u(vp, n);
    }

    fn bytes(mut self) -> Vec<u8> {
        self.bits.push(true); // rbsp_stop_one_bit
        while self.bits.len() % 8 != 0 {
            self.bits.push(false);
        }
        self.bits
            .chunks(8)
            .map(|c| c.iter().fold(0u8, |a, &b| (a << 1) | b as u8))
            .collect()
    }

    /// As a NAL of this type, escaped.
    fn nal(self, t: u8) -> Vec<u8> {
        let mut out = vec![t << 1, 1];
        let mut zeros = 0;
        for b in self.bytes() {
            if zeros >= 2 && b <= 3 {
                out.push(3);
                zeros = 0;
            }
            out.push(b);
            zeros = if b == 0 { zeros + 1 } else { 0 };
        }
        out
    }
}

#[test]
fn explicit_rps_roundtrip() {
    // 2 negative (deltas −1, −3; used, unused), 1 positive (+2, used).
    let mut w = Bw::new();
    w.ue(2); // num_negative_pics
    w.ue(1); // num_positive_pics
    w.ue(0); // delta_poc_s0_minus1 → −1
    w.u(1, 1); // used
    w.ue(1); // delta_poc_s0_minus1 → −3
    w.u(0, 1); // not used
    w.ue(1); // delta_poc_s1_minus1 → +2
    w.u(1, 1); // used
    let bytes = w.bytes();
    let mut r = BitReader::new(&bytes);
    let (rps, ref_idx) = parse_st_rps(&mut r, 0, &[], false).unwrap();
    assert!(ref_idx.is_none());
    assert_eq!(rps.neg, vec![(-1, true), (-3, false)]);
    assert_eq!(rps.pos, vec![(2, true)]);
}

#[test]
fn inter_predicted_rps_resolves() {
    // Reference set: neg = [(-1, used)], pos = [].
    let base = StRps {
        neg: vec![(-1, true)],
        pos: vec![],
    };
    // Inter-predict with deltaRps = −1: candidates are ref deltas −1
    // shifted → −2, plus the delta itself −1.
    let mut w = Bw::new();
    w.u(1, 1); // inter_ref_pic_set_prediction_flag
    w.u(1, 1); // delta_rps_sign (negative)
    w.ue(0); // abs_delta_rps_minus1 → |deltaRps| = 1
    // j = 0 (ref neg[0] → −2): used
    w.u(1, 1);
    // j = 1 (the deltaRps itself → −1): used
    w.u(1, 1);
    let bytes = w.bytes();
    let mut r = BitReader::new(&bytes);
    let (rps, ref_idx) = parse_st_rps(&mut r, 1, &[base], false).unwrap();
    assert_eq!(ref_idx, Some(0));
    // Nearest-first: −1 (deltaRps), then −2.
    assert_eq!(rps.neg, vec![(-1, true), (-2, true)]);
    assert!(rps.pos.is_empty());
}

#[test]
fn nal_helpers() {
    // NAL header byte 0: type in bits 6..1.
    let idr = [(NAL_IDR_W_RADL << 1), 1u8];
    assert_eq!(nal_type(&idr), NAL_IDR_W_RADL);
    assert!(is_idr(NAL_IDR_W_RADL));
    assert!(is_irap(NAL_CRA));
    assert!(is_vcl(0));
    assert!(!is_vcl(NAL_SPS));
    assert!(is_reference(1));
    assert!(!is_reference(0));
    assert!(is_reference(NAL_IDR_N_LP));
}

#[test]
fn predicted_rps_mixes_both_sides() {
    // Reference set −2, −5 and +3; deltaRps = +4 brings them to 2, −1 and 7,
    // and adds 4 itself.
    let base = StRps { neg: vec![(-2, true), (-5, false)], pos: vec![(3, true)] };
    let mut w = Bw::new();
    w.u(1, 1);
    w.u(0, 1); // positive
    w.ue(3); // |deltaRps| = 4
    w.u(1, 1); // −2 → 2: used
    w.u(0, 1); // −5 → −1: not used
    w.u(1, 1); // but kept
    w.u(0, 1); // 3 → 7: not used
    w.u(0, 1); // and dropped
    w.u(1, 1); // 4 itself: used
    let bytes = w.bytes();
    let mut r = BitReader::new(&bytes);
    let (rps, _) = parse_st_rps(&mut r, 1, &[base], false).unwrap();
    assert_eq!(rps.neg, vec![(-1, false)]);
    assert_eq!(rps.pos, vec![(2, true), (4, true)]);
    assert_eq!(rps.num_delta_pocs(), 3);
}

fn profile_tier_level(w: &mut Bw) {
    w.u(0, 2);
    w.u(0, 1); // main tier
    w.u(1, 5); // Main
    w.u(0x6000_0000, 32);
    w.u(0b1001, 4); // progressive, frame only
    w.u(0, 32);
    w.u(0, 11);
    w.u(0, 1);
    w.u(93, 8); // level 3.1
}

fn vps_nal() -> Vec<u8> {
    let mut w = Bw::new();
    w.u(2, 4);
    w.u(3, 2);
    w.u(0, 6);
    w.u(0, 3);
    w.u(1, 1);
    w.u(0xffff, 16);
    profile_tier_level(&mut w);
    w.nal(32)
}

fn sps_nal() -> Vec<u8> {
    sps_nal_with((0, 0), 0)
}

/// A set with these bit depth codes and this long-term flag.
fn sps_nal_with(depths: (u32, u32), long_term: u32) -> Vec<u8> {
    let mut w = Bw::new();
    w.u(2, 4); // vps id
    w.u(0, 3); // sub-layers
    w.u(1, 1); // nesting
    profile_tier_level(&mut w);
    w.ue(0); // id
    w.ue(1); // 4:2:0
    w.ue(1920);
    w.ue(1088);
    w.u(1, 1); // window
    w.ue(0);
    w.ue(0);
    w.ue(0);
    w.ue(4);
    w.ue(depths.0);
    w.ue(depths.1);
    w.ue(4); // log2_max_poc_lsb - 4
    w.u(1, 1); // ordering info for all sub-layers
    w.ue(4); // dec pic buffering - 1
    w.ue(2); // reorder
    w.ue(0);
    w.ue(0); // min cb
    w.ue(3);
    w.ue(0); // min tb
    w.ue(3);
    w.ue(1);
    w.ue(1);
    w.u(0, 1); // scaling lists
    w.u(1, 1); // amp
    w.u(1, 1); // sao
    w.u(0, 1); // pcm
    w.ue(2); // two sets
    w.ue(1); // set 0: −1
    w.ue(0);
    w.ue(0);
    w.u(1, 1);
    w.u(0, 1); // set 1: explicit
    w.ue(1); // −2
    w.ue(1); // +1
    w.ue(1);
    w.u(1, 1);
    w.ue(0);
    w.u(1, 1);
    w.u(long_term, 1);
    if long_term == 1 {
        w.ue(0); // no pictures listed
    }
    w.u(1, 1); // temporal mvp
    w.u(0, 1); // strong intra smoothing
    w.u(0, 1); // vui
    w.u(0, 1); // extension
    w.nal(33)
}

fn pps_nal() -> Vec<u8> {
    let mut w = Bw::new();
    w.ue(0);
    w.ue(0);
    w.u(0, 1);
    w.u(0, 1);
    w.u(0, 3);
    w.u(1, 1); // sign data hiding
    w.u(0, 1);
    w.ue(0);
    w.ue(0);
    w.ue(4); // se −2: init qp
    w.u(0, 1);
    w.u(0, 1);
    w.u(1, 1); // cu qp delta
    w.ue(1);
    w.ue(0);
    w.ue(0);
    w.u(0, 1);
    w.u(0, 1);
    w.u(0, 1);
    w.u(0, 1);
    w.u(0, 1); // tiles
    w.u(0, 1); // wpp
    w.u(1, 1); // loop filter across slices
    w.u(0, 1); // deblocking control
    w.u(0, 1); // scaling lists
    w.u(0, 1);
    w.ue(0);
    w.u(0, 1);
    w.u(0, 1);
    w.nal(34)
}

fn streams() -> (H265Sps, H265Pps) {
    (parse_sps(&sps_nal()).unwrap(), parse_pps(&pps_nal()).unwrap())
}

#[test]
fn vps_fields() {
    let vps = parse_vps(&vps_nal()).unwrap();
    assert_eq!(vps.vps_id, 2);
    assert!(vps.temporal_id_nesting);
    assert_eq!((vps.ptl.profile_idc, vps.ptl.level_idc), (1, 93));
    assert!(vps.ptl.progressive_source && vps.ptl.frame_only && !vps.ptl.interlaced_source);
}

#[test]
fn sps_fields_and_reference_sets() {
    let (sps, _) = streams();
    assert_eq!((sps.width, sps.height), (1920, 1088));
    assert_eq!(sps.crop, [0, 0, 0, 8]);
    assert_eq!((sps.bit_depth_luma, sps.bit_depth_chroma), (8, 8));
    assert_eq!(sps.log2_max_poc_lsb, 8);
    assert_eq!((sps.max_dec_pic_buffering, sps.max_num_reorder_pics), (5, 2));
    assert!(sps.amp_enabled && sps.sao_enabled && sps.temporal_mvp);
    assert_eq!(sps.st_rps.len(), 2);
    assert_eq!(sps.st_rps[0].neg, vec![(-1, true)]);
    assert_eq!(sps.st_rps[1].neg, vec![(-2, true)]);
    assert_eq!(sps.st_rps[1].pos, vec![(1, true)]);
}

#[test]
fn pps_fields_of_hevc() {
    let (_, pps) = streams();
    assert!(pps.sign_data_hiding && pps.cu_qp_delta_enabled && !pps.tiles_enabled);
    assert_eq!(pps.init_qp_minus26, -2);
    assert_eq!(pps.diff_cu_qp_delta_depth, 1);
    assert!(pps.loop_filter_across_slices);
}

#[test]
fn short_parameter_sets_are_malformed() {
    assert!(matches!(parse_vps(&[0x40, 1, 0]), Err(H264Error::Malformed(m)) if m == "VPS too short"));
    assert!(matches!(parse_sps(&[0x42, 1, 0]), Err(H264Error::Malformed(m)) if m == "SPS too short"));
    assert!(matches!(parse_pps(&[0x44, 1]), Err(H264Error::Malformed(m)) if m == "PPS too short"));
    let (sps, pps) = streams();
    assert!(matches!(
        parse_slice_header(&[0x02, 1, 0], &sps, &pps),
        Err(H264Error::Malformed(m)) if m == "slice NAL too short"
    ));
}

#[test]
fn slice_takes_a_set_of_the_sps() {
    let (sps, pps) = streams();
    let mut w = Bw::new();
    w.u(1, 1); // first slice
    w.ue(0); // pps
    w.ue(0); // B
    w.u(6, 8); // poc lsb
    w.u(1, 1); // set from the SPS
    w.u(1, 1); // number 1 of 2
    w.u(0, 16);
    let h = parse_slice_header(&w.nal(1), &sps, &pps).unwrap();
    assert!(h.first_slice);
    assert_eq!(h.slice_type, H265SliceType::B);
    assert_eq!((h.nal_type, h.poc_lsb), (1, 6));
    assert_eq!(h.rps.neg, vec![(-2, true)]);
    assert_eq!(h.rps.pos, vec![(1, true)]);
    assert_eq!((h.num_bits_st_rps, h.num_delta_pocs_of_ref), (0, 0));
}

#[test]
fn slice_brings_a_predicted_set() {
    let (sps, pps) = streams();
    let mut w = Bw::new();
    w.u(1, 1);
    w.ue(0);
    w.ue(1); // P
    w.u(9, 8);
    w.u(0, 1); // own set
    w.u(1, 1); // predicted
    w.ue(0); // from the last
    w.u(1, 1); // negative
    w.ue(0); // −1
    w.u(1, 1);
    w.u(1, 1);
    w.u(1, 1);
    w.u(0, 16);
    let h = parse_slice_header(&w.nal(1), &sps, &pps).unwrap();
    assert_eq!(h.slice_type, H265SliceType::P);
    // −2 and +1 shifted by −1, and −1 itself; the zero is no picture.
    assert_eq!(h.rps.neg, vec![(-1, true), (-3, true)]);
    assert!(h.rps.pos.is_empty());
    assert_eq!((h.num_bits_st_rps, h.num_delta_pocs_of_ref), (7, 2));
}

#[test]
fn idr_slice_has_no_references() {
    let (sps, pps) = streams();
    let mut w = Bw::new();
    w.u(1, 1);
    w.u(0, 1); // no output of prior pics
    w.ue(0);
    w.ue(2); // I
    w.u(0, 24);
    let h = parse_slice_header(&w.nal(NAL_IDR_W_RADL), &sps, &pps).unwrap();
    assert_eq!(h.slice_type, H265SliceType::I);
    assert_eq!(h.poc_lsb, 0);
    assert_eq!(h.rps.num_delta_pocs(), 0);
}

fn unsupported_text(nal: &[u8]) -> String {
    match parse_sps(nal) {
        Err(H264Error::Unsupported(m)) => m,
        other => panic!("not refused: {other:?}"),
    }
}

#[test]
fn long_term_pictures_are_refused() {
    assert_eq!(unsupported_text(&sps_nal_with((0, 0), 1)), "long-term reference pictures");
    // The flag alone, with no pictures listed.
    let nal = [
        0x42, 1, 1, 1, 0x60, 0, 0, 3, 0, 0x90, 0, 0, 3, 0, 0, 3, 0, 0x5D, 0xA0, 3, 0xC0, 0x80, 0x11,
        7, 0xCB, 0x96, 0x57, 0x92, 0x4D, 0x92, 0xFE, 0x40,
    ];
    assert_eq!(unsupported_text(&nal), "long-term reference pictures");
}

#[test]
fn bit_depths_are_eight_or_ten() {
    let s = parse_sps(&sps_nal_with((2, 2), 0)).unwrap();
    assert_eq!((s.bit_depth_luma, s.bit_depth_chroma), (10, 10));
    for (codes, text) in [
        ((1, 1), "bit depth 9/9 (8- or 10-bit only)"),
        ((0, 2), "bit depth 8/10 (8- or 10-bit only)"),
        ((256, 256), "bit depth 264/264 (8- or 10-bit only)"),
        ((2, 258), "bit depth 10/266 (8- or 10-bit only)"),
    ] {
        assert_eq!(unsupported_text(&sps_nal_with(codes, 0)), text);
    }
}

#[test]
fn deltas_fill_thirty_two_bits() {
    let set = |second: u32| {
        let mut w = Bw::new();
        w.ue(2);
        w.ue(0);
        w.ue(0x7fff_fffe); // the lowest delta but one
        w.u(1, 1);
        w.ue(second);
        w.u(1, 1);
        w.bytes()
    };
    let bytes = set(0);
    let (rps, _) = parse_st_rps(&mut BitReader::new(&bytes), 0, &[], false).unwrap();
    assert_eq!(rps.neg, vec![(i32::MIN + 1, true), (i32::MIN, true)]);
    let bytes = set(1);
    match parse_st_rps(&mut BitReader::new(&bytes), 0, &[], false) {
        Err(H264Error::Malformed(m)) => assert_eq!(m, "RPS delta out of range"),
        _ => panic!("the delta does not fit"),
    }
}
