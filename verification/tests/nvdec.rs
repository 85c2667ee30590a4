use ash::vk::native::{
    StdVideoH264LevelIdc_STD_VIDEO_H264_LEVEL_IDC_1_0 as H1_0,
    StdVideoH264LevelIdc_STD_VIDEO_H264_LEVEL_IDC_3_1 as H3_1,
    StdVideoH264LevelIdc_STD_VIDEO_H264_LEVEL_IDC_4_0 as H4_0,
    StdVideoH264LevelIdc_STD_VIDEO_H264_LEVEL_IDC_5_2 as H5_2,
    StdVideoH264LevelIdc_STD_VIDEO_H264_LEVEL_IDC_6_2 as H6_2,
    StdVideoH265LevelIdc_STD_VIDEO_H265_LEVEL_IDC_1_0 as V1_0,
    StdVideoH265LevelIdc_STD_VIDEO_H265_LEVEL_IDC_4_1 as V4_1,
    StdVideoH265LevelIdc_STD_VIDEO_H265_LEVEL_IDC_6_2 as V6_2,
    StdVideoH265ProfileIdc_STD_VIDEO_H265_PROFILE_IDC_MAIN as MAIN,
    StdVideoH265ProfileIdc_STD_VIDEO_H265_PROFILE_IDC_MAIN_10 as MAIN_10,
};
use splattar::h264::{Pps, ScalingLists, SliceHeader, SliceType, Sps};
use splattar::h265::{H265Pps, H265SliceHeader, H265SliceType, H265Sps, Ptl, StRps};
use splattar::nvdec::{
    build_std_pps, build_std_sps, byte_of, choose_decode_queue, crop_offsets, cropped_size,
    find_memory_type, find_session_memory, image_usages, level_to_std, next_poc, picture_info, plane_copies,
    session_size, signed_byte_of, split_planes, std_scaling, word_of, write_bitstream, H264Dpb,
    ImageUsage, NvDecError, PlaneCopy, QueueFamily, StdPicture,
};
use splattar::nvdec_h265::{std_st_rps, H265Dpb};

fn sps() -> Sps {
    Sps {
        profile_idc: 100,
        constraint_flags: 0b0101_0000,
        level_idc: 40,
        sps_id: 0,
        chroma_format_idc: 1,
        log2_max_frame_num: 8,
        poc_type: 0,
        log2_max_poc_lsb: 4,
        max_num_ref_frames: 2,
        gaps_allowed: false,
        mb_width: 120,
        mb_height: 68,
        width: 1920,
        height: 1080,
        direct_8x8: true,
        qpprime_y_zero: false,
        frame_cropping_flag: true,
        frame_cropping: [0, 0, 0, 4],
        scaling: None,
    }
}

fn pps() -> Pps {
    Pps {
        pps_id: 1,
        sps_id: 0,
        entropy_cabac: true,
        pic_order_present: false,
        num_ref_idx_l0_default: 3,
        num_ref_idx_l1_default: 1,
        weighted_pred: false,
        weighted_bipred_idc: 2,
        pic_init_qp_minus26: -5,
        pic_init_qs_minus26: 0,
        chroma_qp_index_offset: -2,
        second_chroma_qp_index_offset: 4,
        deblocking_control_present: true,
        constrained_intra: false,
        redundant_pic_cnt_present: false,
        transform_8x8: true,
        scaling: None,
    }
}

fn header(idr: bool, frame_num: u32, poc_lsb: u32, nal_ref_idc: u8) -> SliceHeader {
    SliceHeader {
        first_mb: 0,
        slice_type: if idr { SliceType::I } else { SliceType::P },
        pps_id: 1,
        frame_num,
        idr,
        idr_pic_id: 0,
        poc_lsb,
        num_ref_idx_l0: 1,
        nal_ref_idc,
    }
}

fn sps265(level_idc: u8, profile_idc: u8) -> H265Sps {
    H265Sps {
        vps_id: 0,
        sps_id: 0,
        max_sub_layers_minus1: 0,
        temporal_id_nesting: true,
        ptl: Ptl {
            tier_flag: false,
            profile_idc,
            level_idc,
            progressive_source: true,
            interlaced_source: false,
            non_packed: false,
            frame_only: true,
            compat_flags: 0,
        },
        chroma_format_idc: 1,
        width: 1920,
        height: 1088,
        crop: [0, 0, 0, 8],
        bit_depth_luma: 10,
        bit_depth_chroma: 10,
        log2_max_poc_lsb: 8,
        max_dec_pic_buffering: 5,
        max_num_reorder_pics: 2,
        log2_min_cb_minus3: 0,
        log2_diff_cb: 3,
        log2_min_tb_minus2: 0,
        log2_diff_tb: 3,
        max_th_depth_inter: 1,
        max_th_depth_intra: 1,
        scaling_list_enabled: false,
        amp_enabled: true,
        sao_enabled: true,
        pcm_enabled: false,
        st_rps: vec![StRps { neg: vec![(-1, true)], pos: vec![] }],
        temporal_mvp: true,
        strong_intra_smoothing: true,
    }
}

fn pps265() -> H265Pps {
    H265Pps {
        pps_id: 0,
        sps_id: 0,
        dependent_slice_segments: false,
        output_flag_present: false,
        num_extra_slice_header_bits: 0,
        sign_data_hiding: false,
        cabac_init_present: false,
        num_ref_idx_l0_default: 2,
        num_ref_idx_l1_default: 1,
        init_qp_minus26: -10,
        constrained_intra: false,
        transform_skip: false,
        cu_qp_delta_enabled: true,
        diff_cu_qp_delta_depth: 1,
        cb_qp_offset: -3,
        cr_qp_offset: 3,
        slice_chroma_qp_offsets_present: false,
        weighted_pred: false,
        weighted_bipred: false,
        transquant_bypass: false,
        tiles_enabled: false,
        entropy_coding_sync: false,
        loop_filter_across_tiles: true,
        loop_filter_across_slices: true,
        deblocking_control_present: false,
        deblocking_override_enabled: false,
        deblocking_disabled: false,
        beta_offset_div2: -1,
        tc_offset_div2: 2,
        lists_modification_present: false,
        log2_parallel_merge_level_minus2: 0,
        slice_header_extension: false,
    }
}

fn header265(nal_type: u8, poc_lsb: u32, neg: Vec<(i32, bool)>, pos: Vec<(i32, bool)>) -> H265SliceHeader {
    H265SliceHeader {
        nal_type,
        first_slice: true,
        pps_id: 0,
        slice_type: H265SliceType::P,
        poc_lsb,
        rps: StRps { neg, pos },
        num_bits_st_rps: 0,
        num_delta_pocs_of_ref: 0,
    }
}

#[test]
fn order_count_wraps_both_ways() {
    // Sixteen values of the low bits.
    assert_eq!(next_poc(0, 0, 6, 4, true), Some((6, 6, 0)));
    assert_eq!(next_poc(14, 0, 2, 4, true), Some((18, 2, 16)));
    assert_eq!(next_poc(1, 16, 15, 4, true), Some((15, 15, 0)));
    assert_eq!(next_poc(14, 0, 2, 4, false), Some((18, 14, 0)));
    assert_eq!(next_poc(0, 0, 2, 31, true), None);
}

#[test]
fn low_bits_rebuild_every_near_count() {
    for prev in 100i32..120 {
        for poc in prev - 7..prev + 8 {
            let (lsb, msb) = (prev % 16, prev - prev % 16);
            let (got, _, _) = next_poc(lsb, msb, (poc % 16) as u32, 4, true).unwrap();
            assert_eq!(got, poc);
        }
    }
}

#[test]
fn slices_are_written_with_start_codes() {
    let (a, b): (&[u8], &[u8]) = (&[0x65, 1, 2], &[0x65, 3]);
    let out = write_bitstream(&[a, b], 100, 16).unwrap();
    assert_eq!(out.bytes, vec![0, 0, 1, 0x65, 1, 2, 0, 0, 1, 0x65, 3]);
    assert_eq!(out.offsets, vec![0, 6]);
    assert_eq!(out.range, 16);
    assert_eq!(write_bitstream(&[a], 100, 0).unwrap().range, 6);
    match write_bitstream(&[a, b], 10, 1) {
        Err(e) => assert_eq!(e.message(), "unsupported stream: bitstream buffer overflow"),
        Ok(_) => panic!("must not fit"),
    }
}

#[test]
fn sliding_window_drops_the_oldest() {
    let mut dpb = H264Dpb::new(&sps(), 3, 2);
    let nal: &[u8] = &[0x65];
    for (i, (h, poc, refs)) in [
        (header(true, 0, 0, 3), 0, 0),
        (header(false, 1, 2, 2), 2, 1),
        (header(false, 2, 4, 2), 4, 2),
        (header(false, 3, 6, 0), 6, 2),
        (header(false, 3, 8, 2), 8, 2),
    ]
    .iter()
    .enumerate()
    {
        let plan = dpb.prepare(&[nal], h, 1000, 1).unwrap();
        assert_eq!(plan.poc, *poc, "picture {i}");
        assert_eq!(plan.refs.len(), *refs, "picture {i}");
        assert!(!plan.refs.contains(&plan.setup_idx));
        assert_eq!(plan.is_ref, h.nal_ref_idc != 0);
        dpb.finish(&plan);
        assert!(dpb.slots.iter().filter(|s| s.active).count() <= 2);
    }
    let mut held: Vec<i32> = dpb.slots.iter().filter(|s| s.active).map(|s| s.poc).collect();
    held.sort();
    assert_eq!(held, vec![4, 8]);
    // An IDR picture starts over.
    let plan = dpb.prepare(&[nal], &header(true, 0, 0, 3), 1000, 1).unwrap();
    assert_eq!((plan.poc, plan.refs.len()), (0, 0));
    assert!(dpb.slots.iter().all(|s| !s.active));
}

#[test]
fn p_slice_needs_a_reference() {
    let mut dpb = H264Dpb::new(&sps(), 3, 2);
    let nal: &[u8] = &[0x41];
    match dpb.prepare(&[nal], &header(false, 1, 2, 2), 1000, 1) {
        Err(e) => assert_eq!(
            e.message(),
            "unsupported stream: P slice without any reference in the DPB"
        ),
        Ok(_) => panic!("no reference is there"),
    }
}

#[test]
fn order_count_type_two_counts_frames() {
    let mut s = sps();
    s.poc_type = 2;
    let mut dpb = H264Dpb::new(&s, 3, 2);
    assert_eq!(dpb.compute_poc(&header(false, 21, 0, 1)).unwrap(), 42);
    assert!(dpb.compute_poc(&header(false, 0x4000_0000, 0, 1)).is_err());
}

#[test]
fn decode_errors_have_their_messages() {
    assert_eq!(
        NvDecError::NoDecodeQueue.message(),
        "no video-decode-capable device/queue found"
    );
    assert_eq!(NvDecError::Missing("x".to_string()).message(), "driver lacks x");
}

#[test]
fn first_decoding_family_is_chosen() {
    let none = QueueFamily { decode: false, codec: false, transfer: true };
    let other = QueueFamily { decode: true, codec: false, transfer: true };
    let good = QueueFamily { decode: true, codec: true, transfer: true };
    let bare = QueueFamily { decode: true, codec: true, transfer: false };
    assert_eq!(
        choose_decode_queue(&vec![vec![none, other], vec![none, good, good]]).unwrap(),
        (1, 1)
    );
    assert!(matches!(
        choose_decode_queue(&vec![vec![bare], vec![good]]),
        Err(NvDecError::Missing(_))
    ));
    assert!(matches!(
        choose_decode_queue(&vec![vec![none], vec![other]]),
        Err(NvDecError::NoDecodeQueue)
    ));
}

#[test]
fn memory_types_are_tried_in_order() {
    let flags = [2, 1, 3];
    assert_eq!(find_memory_type(0b111, &flags, 1), Some(1));
    assert_eq!(find_memory_type(0b101, &flags, 1), Some(2));
    assert_eq!(find_memory_type(0b001, &flags, 1), None);
    assert_eq!(find_session_memory(0b111, &flags).unwrap(), 1);
    assert_eq!(find_session_memory(0b001, &flags).unwrap(), 0);
    assert!(matches!(find_session_memory(0, &flags), Err(NvDecError::Missing(_))));
}

#[test]
fn sessions_are_sized() {
    let s = session_size(&sps(), true, 17);
    assert_eq!((s.coded_w, s.coded_h), (1920, 1088));
    assert_eq!((s.max_refs, s.max_slots), (2, 3));
    assert_eq!(s.readback_size, 1920 * 1088 * 3 / 2);
    assert_eq!(s.bitstream_cap, 4 << 20);
    assert_eq!(session_size(&sps(), true, 2).max_slots, 2);
    assert!(!s.distinct_output);
    let d = session_size(&sps(), false, 17);
    assert!(d.distinct_output);
    assert_eq!((d.coded_w, d.coded_h, d.max_slots, d.readback_size), (1920, 1088, 3, 3133440));
    assert_eq!(cropped_size(1920, 1088, &[0, 0, 0, 4]), (1920, 1080));
    assert_eq!(crop_offsets(&[3, 0, 1, 0]), (6, 2));

    let s = splattar::nvdec_h265::session_size(&sps265(120, 2), true, 17);
    assert_eq!((s.coded_w, s.coded_h, s.max_refs, s.max_slots), (1920, 1088, 5, 6));
    assert_eq!(s.readback_size, 1920 * 1088 * 3);
    assert_eq!(s.bitstream_cap, 8 << 20);
    assert!(!s.distinct_output);
    assert!(splattar::nvdec_h265::session_size(&sps265(120, 2), false, 17).distinct_output);
    assert_eq!(splattar::nvdec_h265::cropped_size(1920, 1088, &[0, 0, 0, 8]), (1920, 1080));
    assert_eq!(splattar::nvdec_h265::crop_offsets(&[3, 0, 1, 0]), (3, 1));
}

#[test]
fn readback_splits_into_planes() {
    let data: Vec<u8> = (0..14).collect();
    let (y, uv) = split_planes(&data, 8);
    assert_eq!(y, (0..8).collect::<Vec<u8>>());
    assert_eq!(uv, (8..12).collect::<Vec<u8>>());
}

#[test]
fn levels_are_those_of_the_driver() {
    assert_eq!(level_to_std(10), H1_0);
    assert_eq!(level_to_std(31), H3_1);
    assert_eq!(level_to_std(40), H4_0);
    assert_eq!(level_to_std(52), H5_2);
    assert_eq!(level_to_std(62), H6_2);
    assert_eq!(level_to_std(255), H6_2);
    assert_eq!(splattar::nvdec_h265::level_to_std(30), V1_0);
    assert_eq!(splattar::nvdec_h265::level_to_std(123), V4_1);
    assert_eq!(splattar::nvdec_h265::level_to_std(255), V6_2);
    assert_eq!(splattar::nvdec_h265::profile_to_std(1).unwrap(), MAIN);
    assert_eq!(splattar::nvdec_h265::profile_to_std(2).unwrap(), MAIN_10);
    match splattar::nvdec_h265::profile_to_std(4) {
        Err(e) => assert_eq!(
            e.message(),
            "unsupported stream: HEVC profile_idc 4 (Main/Main10 only)"
        ),
        Ok(_) => panic!("range extensions are not supported"),
    }
}

#[test]
fn higher_levels_come_later() {
    for l in 0..255u8 {
        assert!(
            splattar::nvdec_h265::level_to_std(l) <= splattar::nvdec_h265::level_to_std(l + 1)
        );
    }
}

#[test]
fn bytes_are_cut_off() {
    assert_eq!(byte_of(0x1ff), 0xff);
    assert_eq!(signed_byte_of(-5), -5);
    assert_eq!(signed_byte_of(130), -126);
    assert_eq!(signed_byte_of(-129), 127);
}

#[test]
fn driver_form_of_the_parameter_sets() {
    let s = build_std_sps(&sps());
    assert!(!s.constraint_set0 && s.constraint_set1 && !s.constraint_set2 && s.constraint_set3);
    assert_eq!((s.profile_idc, s.level_idc), (100, 10));
    assert_eq!((s.log2_max_frame_num_minus4, s.log2_max_pic_order_cnt_lsb_minus4), (4, 0));
    assert_eq!((s.pic_width_in_mbs_minus1, s.pic_height_in_map_units_minus1), (119, 67));
    assert_eq!((s.crop_left, s.crop_right, s.crop_top, s.crop_bottom), (0, 0, 0, 4));
    assert!(s.frame_cropping && s.frame_mbs_only && !s.seq_scaling_matrix_present);

    let p = build_std_pps(&sps(), &pps());
    assert_eq!((p.pic_parameter_set_id, p.seq_parameter_set_id), (1, 0));
    assert_eq!(p.num_ref_idx_l0_default_active_minus1, 2);
    assert_eq!((p.pic_init_qp_minus26, p.chroma_qp_index_offset), (-5, -2));
    assert_eq!(p.second_chroma_qp_index_offset, 4);
    assert!(p.entropy_coding_mode && p.transform_8x8_mode);

    let s = splattar::nvdec_h265::build_std_sps(&sps265(120, 2)).unwrap();
    assert!(s.conformance_window);
    assert_eq!((s.conf_win_right, s.conf_win_bottom), (0, 4));
    assert_eq!((s.bit_depth_luma_minus8, s.bit_depth_chroma_minus8), (2, 2));
    assert_eq!((s.general_profile_idc, s.general_level_idc), (2, 5));
    assert_eq!(s.num_short_term_ref_pic_sets, 1);
    assert!(splattar::nvdec_h265::build_std_sps(&sps265(120, 9)).is_err());

    let p = splattar::nvdec_h265::build_std_pps(&pps265());
    assert_eq!((p.num_ref_idx_l0_default_active_minus1, p.init_qp_minus26), (1, -10));
    assert_eq!((p.cb_qp_offset, p.cr_qp_offset), (-3, 3));
    assert_eq!((p.beta_offset_div2, p.tc_offset_div2), (-1, 2));
}

#[test]
fn scaling_is_flat_where_none_is_sent() {
    let flat = std_scaling(None);
    assert!(flat.list_4x4.iter().flatten().all(|&v| v == 16));
    assert!(flat.list_8x8.iter().flatten().all(|&v| v == 16));
    let own = ScalingLists {
        present_mask: 1,
        use_default_mask: 2,
        list_4x4: [[7; 16]; 6],
        list_8x8: [[9; 64]; 6],
    };
    let s = std_scaling(Some(&own));
    assert_eq!((s.present_mask, s.use_default_mask), (1, 2));
    assert_eq!((s.list_4x4[5][15], s.list_8x8[0][63]), (7, 9));
}

#[test]
fn explicit_form_of_a_reference_set() {
    let r = std_st_rps(&StRps {
        neg: vec![(-1, true), (-4, false), (-5, true)],
        pos: vec![(2, true)],
    });
    assert_eq!((r.num_negative, r.num_positive), (3, 1));
    assert_eq!(r.delta_s0_minus1[..4], [0, 2, 0, 0]);
    assert_eq!(r.delta_s1_minus1[..2], [1, 0]);
    assert_eq!((r.used_s0, r.used_s1), (0b101, 1));
    // Summing the steps gives the deltas back.
    let mut d = 0i32;
    let mut deltas: Vec<i32> = Vec::new();
    for j in 0..r.num_negative as usize {
        d -= r.delta_s0_minus1[j] as i32 + 1;
        deltas.push(d);
    }
    assert_eq!(deltas, vec![-1, -4, -5]);
}

#[test]
fn hevc_references_follow_the_sets() {
    let mut dpb = H265Dpb::new(&sps265(120, 2), 4);
    let nal: &[u8] = &[0x26, 1];
    let idr = header265(19, 0, vec![], vec![]);
    let plan = dpb.prepare(&[nal], &idr, 1000, 4).unwrap();
    assert_eq!((plan.poc, plan.refs.len()), (0, 0));
    assert_eq!(plan.before_slots, [0xff; 8]);
    assert_eq!(plan.bitstream.range, 8);
    dpb.finish(&plan);
    let first = plan.setup_idx;

    // P at 4, from 0.
    let plan = dpb.prepare(&[nal], &header265(1, 4, vec![(-4, true)], vec![]), 1000, 4).unwrap();
    assert_eq!((plan.poc, plan.refs.clone()), (4, vec![first]));
    assert_eq!(plan.before_slots[0] as usize, first);
    assert_ne!(plan.setup_idx, first);
    dpb.finish(&plan);
    let second = plan.setup_idx;

    // B at 2, from both sides; not a reference itself.
    let h = header265(0, 2, vec![(-2, true)], vec![(2, true)]);
    let plan = dpb.prepare(&[nal], &h, 1000, 4).unwrap();
    assert_eq!(plan.refs, vec![first, second]);
    assert_eq!(plan.after_slots[0] as usize, second);
    assert!(!plan.is_ref);
    dpb.finish(&plan);

    // A set that leaves 0 out drops it.
    let plan = dpb.prepare(&[nal], &header265(1, 8, vec![(-4, true)], vec![]), 1000, 4).unwrap();
    assert_eq!(plan.refs, vec![second]);
    assert!(!dpb.slots[first].active);
}

#[test]
fn missing_hevc_reference_is_named() {
    let mut dpb = H265Dpb::new(&sps265(120, 2), 4);
    let nal: &[u8] = &[0x02, 1];
    match dpb.prepare(&[nal], &header265(1, 9, vec![(-2, true)], vec![]), 1000, 4) {
        Err(e) => assert!(e.message().contains('7'), "{}", e.message()),
        Ok(_) => panic!("7 was never decoded"),
    }
}

#[test]
fn picture_is_described_for_the_driver() {
    let mut h = header(true, 0x1_0003, 0, 3);
    h.idr_pic_id = 7;
    assert_eq!(
        picture_info(&sps(), &h, 12),
        StdPicture {
            is_intra: true,
            idr: true,
            is_reference: true,
            seq_parameter_set_id: 0,
            pic_parameter_set_id: 1,
            frame_num: 3,
            idr_pic_id: 7,
            poc: 12,
        }
    );
    let p = picture_info(&sps(), &header(false, 5, 0, 0), -2);
    assert!(!p.is_intra && !p.idr && !p.is_reference);
    assert_eq!((p.frame_num, p.poc), (5, -2));
    assert_eq!(word_of(0x1_ffff), 0xffff);

    let mut dpb = H265Dpb::new(&sps265(120, 2), 3);
    let nal: &[u8] = &[1];
    let plan = dpb.prepare(&[nal], &header265(19, 0, vec![], vec![]), 100, 1).unwrap();
    let p = splattar::nvdec_h265::picture_info(
        &sps265(120, 2),
        &pps265(),
        &header265(19, 0, vec![], vec![]),
        &plan,
    );
    assert!(p.irap && p.idr && p.is_reference && p.set_from_sps);
    assert_eq!((p.poc, p.before_slots, p.long_term_slots), (0, [0xff; 8], [0xff; 8]));
    dpb.finish(&plan);
    let mut h = header265(0, 1, vec![(-1, true)], vec![]);
    h.num_bits_st_rps = 9;
    let plan = dpb.prepare(&[nal], &h, 100, 1).unwrap();
    let p = splattar::nvdec_h265::picture_info(&sps265(120, 2), &pps265(), &h, &plan);
    assert!(!p.irap && !p.idr && !p.is_reference && !p.set_from_sps);
    assert_eq!((p.poc, p.num_bits_st_rps, p.before_slots[0]), (1, 9, 0));
}

#[test]
fn planes_are_copied_one_behind_the_other() {
    let (luma, chroma) = plane_copies(1920, 1088, 2);
    assert_eq!(luma, PlaneCopy { offset: 0, width: 1920, height: 1088 });
    assert_eq!(chroma, PlaneCopy { offset: 4_177_920, width: 960, height: 544 });
    let size = session_size(&sps(), true, 4);
    let (_, chroma) = plane_copies(size.coded_w, size.coded_h, 1);
    let end = chroma.offset + 2 * chroma.width as u64 * chroma.height as u64;
    assert_eq!(end, size.readback_size as u64);
}

#[test]
fn distinct_output_has_its_own_image() {
    let all = ImageUsage { reference: true, output: true, transfer: true };
    assert_eq!(image_usages(false), (all, None));
    let (slots, output) = image_usages(true);
    assert_eq!(slots, ImageUsage { reference: true, output: false, transfer: false });
    assert_eq!(output, Some(ImageUsage { reference: false, output: true, transfer: true }));
}
