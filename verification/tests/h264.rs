use splattar::bitstream::H264Error;
use splattar::h264::{parse_pps, parse_slice_header, parse_sps, Pps, SliceType, Sps};

/// Writes the bits of hand-made streams.
struct BitWriter {
    bits: Vec<bool>,
}

impl BitWriter {
    fn new() -> Self {
        BitWriter { bits: Vec::new() }
    }

    fn u(&mut self, v: u32, n: u32) {
        for i in (0..n).rev() {
            self.bits.push((v >> i) & 1 == 1);
        }
    }

    fn ue(&mut self, v: u32) {
        let vp = v + 1;
        let n = 32 - vp.leading_zeros();
        self.u(0, n - 1);
        self.u(vp, n);
    }

    fn se(&mut self, v: i32) {
        self.ue(if v > 0 { 2 * v as u32 - 1 } else { 2 * v.unsigned_abs() });
    }

    fn bytes(mut self, header: u8) -> Vec<u8> {
        self.bits.push(true);
        while self.bits.len() % 8 != 0 {
            self.bits.push(false);
        }
        let mut out = vec![header];
        let mut zeros = 0;
        for c in self.bits.chunks(8) {
            let b = c.iter().fold(0u8, |a, &b| (a << 1) | b as u8);
            if zeros >= 2 && b <= 3 {
                out.push(3);
                zeros = 0;
            }
            out.push(b);
            zeros = if b == 0 { zeros + 1 } else { 0 };
        }
        out
    }
}

fn baseline_sps_bits() -> BitWriter {
    let mut w = BitWriter::new();
    w.u(66, 8); // profile
    w.u(0xc0, 8); // constraints
    w.u(31, 8); // level
    w.ue(0); // id
    w.ue(4); // log2_max_frame_num - 4
    w.ue(0); // poc type
    w.ue(4); // log2_max_poc_lsb - 4
    w.ue(2); // reference frames
    w.u(0, 1); // gaps
    w.ue(39); // 40 macroblocks wide
    w.ue(22); // 23 high
    w.u(1, 1); // frames only
    w.u(1, 1); // direct 8x8
    w
}

fn baseline_sps() -> Sps {
    let mut w = baseline_sps_bits();
    w.u(1, 1); // cropping
    w.ue(0);
    w.ue(0);
    w.ue(0);
    w.ue(4);
    w.u(0, 1); // no vui
    parse_sps(&w.bytes(0x67)).unwrap()
}

fn simple_pps() -> Pps {
    let mut w = BitWriter::new();
    w.ue(0);
    w.ue(0);
    w.u(1, 1); // cabac
    w.u(0, 1);
    w.ue(0); // slice groups
    w.ue(1); // l0 refs - 1
    w.ue(0);
    w.u(0, 1); // weighted
    w.u(0, 2);
    w.se(3);
    w.se(-2);
    w.se(1);
    w.u(1, 1); // deblocking control
    w.u(0, 1);
    w.u(0, 1);
    parse_pps(&w.bytes(0x68)).unwrap()
}

#[test]
fn sps_fields_and_cropped_size() {
    let sps = baseline_sps();
    assert_eq!((sps.profile_idc, sps.constraint_flags, sps.level_idc), (66, 0xc0, 31));
    assert_eq!(sps.chroma_format_idc, 1);
    assert_eq!(sps.log2_max_frame_num, 8);
    assert_eq!((sps.poc_type, sps.log2_max_poc_lsb), (0, 8));
    assert_eq!(sps.max_num_ref_frames, 2);
    assert_eq!((sps.mb_width, sps.mb_height), (40, 23));
    assert_eq!((sps.width, sps.height), (640, 360));
    assert!(sps.frame_cropping_flag && sps.direct_8x8 && !sps.gaps_allowed);
    assert_eq!(sps.frame_cropping, [0, 0, 0, 4]);
    assert!(sps.scaling.is_none());
}

#[test]
fn sps_without_cropping_has_coded_size() {
    let mut w = baseline_sps_bits();
    w.u(0, 1);
    w.u(0, 1);
    let sps = parse_sps(&w.bytes(0x67)).unwrap();
    assert_eq!((sps.width, sps.height), (640, 368));
}

#[test]
fn truncated_sps_is_eof() {
    assert!(matches!(parse_sps(&[0x67, 66, 0]), Err(H264Error::Eof)));
}

#[test]
fn interlaced_sps_is_unsupported() {
    let mut w = BitWriter::new();
    w.u(66, 8);
    w.u(0, 8);
    w.u(30, 8);
    w.ue(0);
    w.ue(0);
    w.ue(2); // poc type 2
    w.ue(1);
    w.u(0, 1);
    w.ue(10);
    w.ue(10);
    w.u(0, 1); // fields
    let r = parse_sps(&w.bytes(0x67));
    assert!(matches!(r, Err(H264Error::Unsupported(_))), "{r:?}");
}

#[test]
fn pps_fields() {
    let pps = simple_pps();
    assert!(pps.entropy_cabac && pps.deblocking_control_present);
    assert_eq!((pps.num_ref_idx_l0_default, pps.num_ref_idx_l1_default), (2, 1));
    assert_eq!((pps.pic_init_qp_minus26, pps.pic_init_qs_minus26), (3, -2));
    assert_eq!(pps.chroma_qp_index_offset, 1);
    assert_eq!(pps.second_chroma_qp_index_offset, 1);
    assert!(!pps.transform_8x8 && pps.scaling.is_none());
}

#[test]
fn slice_groups_are_unsupported() {
    let mut w = BitWriter::new();
    w.ue(0);
    w.ue(0);
    w.u(0, 1);
    w.u(0, 1);
    w.ue(1);
    assert!(matches!(parse_pps(&w.bytes(0x68)), Err(H264Error::Unsupported(_))));
}

#[test]
fn idr_slice_header() {
    let (sps, pps) = (baseline_sps(), simple_pps());
    let mut w = BitWriter::new();
    w.ue(0); // first mb
    w.ue(7); // I
    w.ue(0); // pps
    w.u(0, 8); // frame num
    w.ue(5); // idr pic id
    w.u(0x2a, 8); // poc lsb
    w.u(0, 2); // marking
    w.se(0);
    let h = parse_slice_header(&w.bytes(0x65), &sps, &pps).unwrap();
    assert!(h.idr);
    assert_eq!(h.slice_type, SliceType::I);
    assert_eq!((h.frame_num, h.idr_pic_id, h.poc_lsb), (0, 5, 0x2a));
    assert_eq!(h.nal_ref_idc, 3);
}

#[test]
fn p_slice_header_overrides_reference_count() {
    let (sps, pps) = (baseline_sps(), simple_pps());
    let mut w = BitWriter::new();
    w.ue(0);
    w.ue(0); // P
    w.ue(0);
    w.u(7, 8);
    w.u(14, 8);
    w.u(1, 1); // override
    w.ue(0);
    w.u(0, 1); // no list modification
    w.u(0, 1); // no adaptive marking
    w.se(0);
    let h = parse_slice_header(&w.bytes(0x41), &sps, &pps).unwrap();
    assert!(!h.idr);
    assert_eq!(h.slice_type, SliceType::P);
    assert_eq!((h.frame_num, h.poc_lsb, h.num_ref_idx_l0), (7, 14, 1));
    assert_eq!(h.nal_ref_idc, 2);
}

#[test]
fn slice_types_repeat_after_five() {
    let expect = [SliceType::P, SliceType::B, SliceType::I, SliceType::Sp, SliceType::Si];
    for (v, t) in expect.iter().enumerate() {
        assert_eq!(SliceType::from_value(v as u32), *t);
        assert_eq!(SliceType::from_value(v as u32 + 5), *t);
    }
}
