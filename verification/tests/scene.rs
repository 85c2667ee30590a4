use splattar::atlas::{target_alignment, Atlas};
use splattar::detect::{
    cell_count, free_runs, is_too_small, keep_best, mark_taken, search_span, PixelBox, Run,
};
use splattar::init::{missing_surfels, Cell, VoxelGrid, XorShift, MAX_CANDIDATES};
use splattar::ordering::{bits_of_key, keep_within, median_key, rank, take_least, total_key};
use splattar::pairwise::{all_active, next_step, verified_pairs, PairProgress, PairStep};
use splattar::plane_sweep::{
    colour_pixel, fit_window, hypothesis_count, patch_half_width, pick_neighbours, sample_step,
    spawn_places, sweep_alignment, sweep_grid, sweep_groups, sweep_slots, Scored,
};
use splattar::pyramid::{downsample_taps, Pyramid};
use splattar::render::{active_degree, pad_sh, plan_renderer, psnr_sums, to_quads};
use splattar::sh::{degree_from_rest_count, interleave, num_coeffs, sh_floats_per_splat};
use splattar::ssim::{encode, plan_loss, Buf, Pass};
use splattar::text::{dec_signed_string, dec_string, with_number};
use splattar::words::{parse_usize, same_text, split_words, trim_after, trim_end};

#[test]
fn pyramid_halves() {
    let p = Pyramid::build(640, 480, 4);
    assert_eq!(p.levels.len(), 4);
    assert_eq!((p.levels[3].width, p.levels[3].height), (80, 60));
}

#[test]
fn pyramid_stops_at_small_levels() {
    let p = Pyramid::build(100, 40, 8);
    let sizes: Vec<(usize, usize)> = p.levels.iter().map(|l| (l.width, l.height)).collect();
    assert_eq!(sizes, vec![(100, 40), (50, 20)]);
    let t = downsample_taps(0, 2, 10, 5);
    assert_eq!((t.cx, t.xm, t.xp), (0, 0, 1));
    // Row 4 is the last: the one below it is itself.
    let t = downsample_taps(4, 1, 10, 5);
    assert_eq!((t.cx, t.xm, t.xp, t.cy, t.ym, t.yp), (8, 7, 9, 2, 1, 3));
}

#[test]
fn harmonics_are_padded_and_counted() {
    assert_eq!([0, 1, 2, 3].map(num_coeffs), [1, 4, 9, 16]);
    assert_eq!(sh_floats_per_splat(3), 48);
    for d in 0..4u8 {
        assert_eq!(degree_from_rest_count(3 * (num_coeffs(d) - 1)), Some(d));
    }
    assert_eq!(degree_from_rest_count(10), None);
    assert_eq!(
        interleave(&['r', 'g', 'b'], &['1', '2', '3', '4', '5', '6'], 3),
        vec!['r', 'g', 'b', '1', '3', '5', '2', '4', '6']
    );
    let out = pad_sh(&[1, 2, 3, 4, 5, 6], 3, 0, 2);
    assert_eq!(out.len(), 96);
    assert_eq!(out[..4], [1, 2, 3, 0]);
    assert_eq!(out[48..52], [4, 5, 6, 0]);
}

#[test]
fn renderer_sizes() {
    assert_eq!(to_quads(&[[1, 2, 3], [4, 5, 6]], 9), vec![1, 2, 3, 9, 4, 5, 6, 9]);
    let p = plan_renderer(1000);
    assert_eq!((p.sort_capacity, p.splats_2d, p.preprocess_groups), (1000, 48_000, 4));
    assert_eq!((active_degree(3, 1), active_degree(0, 3)), (1, 0));
}

#[test]
fn squared_error_leaves_alpha_out() {
    let a = [10, 20, 30, 255, 0, 0, 0, 0];
    let b = [13, 20, 26, 0, 0, 0, 1, 9];
    assert_eq!(psnr_sums(&a, &b), (9 + 16 + 1, 6));
    assert_eq!(psnr_sums(&a, &a), (0, 6));
}

#[test]
fn atlas_slots_do_not_overlap() {
    let mut a = Atlas::with_capacity(3, 2, 1, 3, 64);
    assert_eq!((a.view_bytes(), a.total_bytes()), (96, 384));
    assert_eq!((a.offset(0), a.offset(1), a.offset(2)), (0, 128, 256));
    assert_eq!(a.headroom(), 2);
    assert_eq!(a.push_view(), Some(1));
    assert_eq!(a.push_view(), Some(2));
    assert_eq!(a.push_view(), None);
    assert_eq!(a.headroom(), 0);
    let a = Atlas::with_capacity(30, 20, 0, 0, 16);
    assert_eq!((a.groups(), a.samples()), (3, 150));
    assert_eq!(a.total_bytes(), 9600);
    assert_eq!([32, 256, 512].map(target_alignment), [256, 256, 512]);
}

#[test]
fn sweep_parameters_are_clamped() {
    assert_eq!(sweep_grid((640, 480), 4), (160, 120));
    assert_eq!(sweep_grid((3, 480), 0), (3, 480));
    assert_eq!(sweep_grid((3, 480), 8), (1, 60));
    assert_eq!([1, 64, 999].map(hypothesis_count), [2, 64, 128]);
    assert_eq!([-4, 2, 9].map(patch_half_width), [1, 2, 3]);
    assert_eq!(sweep_groups((160, 121)), (20, 16));
    assert_eq!((sweep_alignment(4), sweep_alignment(256)), (16, 256));
    assert_eq!(sweep_slots(5, &[1, 2]), vec![5, 1, 2]);
    assert_eq!((sample_step(100, 30), sample_step(3, 30)), (3, 1));
}

#[test]
fn nearest_parallax_is_picked_first() {
    let s = |view, key| Scored { view, key };
    let scored = [s(4, 50), s(9, 10), s(2, 30), s(7, 10)];
    assert_eq!(pick_neighbours(&scored, 3), vec![9, 7, 2]);
    assert_eq!(pick_neighbours(&scored, 9).len(), 4);
}

#[test]
fn spawned_places_lie_inside() {
    assert_eq!(spawn_places(10, 3), vec![1, 4, 7]);
    assert!(spawn_places(2, 1).is_empty());
    assert_eq!(fit_window(0, 0, 5, 5), vec![(0, 0), (1, 0), (0, 1), (1, 1)]);
    assert_eq!(fit_window(2, 2, 5, 5).len(), 9);
    assert_eq!(colour_pixel(99, 1, (10, 5)), 19);
}

#[test]
fn loss_passes_read_what_was_written() {
    let passes = encode();
    assert_eq!(passes.len(), 19);
    let mut written = vec![Buf::Image, Buf::Target];
    let mut rows_ready = false;
    for p in &passes {
        match p {
            Pass::Products => written.extend([Buf::X2, Buf::Y2, Buf::Xy]),
            Pass::BlurRows { from } => {
                assert!(written.contains(from), "{from:?} is read before it is written");
                rows_ready = true;
            }
            Pass::BlurColumns { to } => {
                assert!(rows_ready);
                written.push(*to);
                rows_ready = false;
            }
            Pass::Partials => written.extend([Buf::CMu, Buf::CX2]),
            Pass::Combine => assert!(written.contains(&Buf::BcXy)),
        }
    }
    let p = plan_loss(100, 33);
    assert_eq!((p.px_bytes, p.groups_1d, p.blur_x, p.blur_y), (52_800, 13, 7, 3));
}

#[test]
fn generator_is_a_xor_shift() {
    let mut g = XorShift::new(42);
    let mut x: u64 = 43;
    for _ in 0..100 {
        x ^= x << 13;
        x ^= x >> 7;
        x ^= x << 17;
        assert_ne!(x, 0);
        assert_eq!(g.draw(), x >> 11);
    }
}

#[test]
fn candidates_come_from_the_cells_around() {
    let c = |x, y, z| Cell { x, y, z };
    let far = i32::MAX;
    let g = VoxelGrid::new(vec![c(0, 0, 0), c(1, -1, 0), c(2, 0, 0), c(0, 0, 0), c(far, 0, 0)]);
    let mut found = g.candidates(0);
    found.sort();
    assert_eq!(found, vec![1, 3]);
    let mut found = g.candidates(1);
    found.sort();
    assert_eq!(found, vec![0, 2, 3]);
    assert!(g.candidates(4).is_empty());
    let g = VoxelGrid::new(vec![c(0, 0, 0); 200]);
    assert_eq!(g.candidates(5).len(), MAX_CANDIDATES);
    assert!(!g.candidates(5).contains(&5));
    assert_eq!((missing_surfels(5, 8), missing_surfels(9, 8)), (3, 0));
}

#[test]
fn float_keys_order_like_floats() {
    let values = [f32::NEG_INFINITY, -2.5, -0.0, 0.0, 1e-30, 3.0, f32::INFINITY];
    for w in values.windows(2) {
        assert!(total_key(w[0].to_bits()) < total_key(w[1].to_bits()), "{w:?}");
    }
}

#[test]
fn ranking_is_stable() {
    let keys = [30, 10, 20, 10];
    assert_eq!(rank(&keys), vec![1, 3, 2, 0]);
    assert_eq!(take_least(&keys, 2), vec![1, 3]);
    assert_eq!(median_key(&keys), 20);
    assert_eq!(median_key(&[7]), 7);
    assert_eq!(keep_within(&[(4, 9), (5, 11), (6, 10)], 10), vec![4, 6]);
}

#[test]
fn cells_with_points_are_not_searched() {
    assert_eq!((cell_count(100, 32), cell_count(64, 32)), (4, 2));
    let b = PixelBox { x0: 30, x1: 40, y0: 0, y1: 10 };
    let taken = mark_taken(&[b], 32, (4, 2));
    assert_eq!(taken, vec![true, true, false, false, false, false, false, false]);
    assert_eq!(free_runs(&taken[..4]), vec![Run { first: 2, end: 4 }]);
    assert_eq!(
        free_runs(&[false, true, false, false]),
        vec![Run { first: 0, end: 1 }, Run { first: 2, end: 4 }]
    );
    assert!(free_runs(&[true, true]).is_empty());
    assert_eq!(search_span(0, 4, 32, 5, 100), Some((5, 95)));
    assert_eq!(search_span(3, 4, 32, 5, 100), None);
    assert!(is_too_small(8, 100, 3) && !is_too_small(9, 9, 3));
}

#[test]
fn pairs_go_through_their_steps() {
    let p = |corners_b, matches, inliers| PairProgress {
        corners_a: 50,
        corners_b,
        matches,
        inliers,
    };
    assert_eq!(next_step(p(19, None, None), 15), PairStep::Reject);
    assert_eq!(next_step(p(20, None, None), 15), PairStep::Match);
    assert_eq!(next_step(p(20, Some(14), None), 15), PairStep::Reject);
    assert_eq!(next_step(p(20, Some(15), None), 15), PairStep::Verify);
    assert_eq!(next_step(p(20, Some(15), Some(14)), 15), PairStep::Reject);
    assert_eq!(next_step(p(20, Some(15), Some(15)), 15), PairStep::Accept);
    assert_eq!(verified_pairs(&[(1, 2), (3, 4), (5, 6)], &[2, 0]), vec![(5, 6), (1, 2)]);
    assert_eq!(all_active(3), vec![0, 1, 2]);
}

#[test]
fn numbers_and_words() {
    for n in [0u64, 7, 10, 1234567890, u64::MAX] {
        assert_eq!(dec_string(n), n.to_string());
        assert_eq!(parse_usize(&dec_string(n)), Some(n as usize));
    }
    assert_eq!(dec_signed_string(-42), "-42");
    assert_eq!(with_number("a ", 5, " b"), "a 5 b");
    assert_eq!(parse_usize("+12"), Some(12));
    assert_eq!(parse_usize("-1"), None);
    assert_eq!(parse_usize(""), None);
    assert_eq!(parse_usize("99999999999999999999999"), None);
    assert_eq!(split_words("  a\tbc  d\r\n"), vec!["a", "bc", "d"]);
    assert_eq!(trim_end("x y \r\n"), "x y");
    assert_eq!(trim_after("format  ascii 1.0 ", 6), "ascii 1.0");
    assert!(same_text("ä", "ä") && !same_text("a", "b"));
}

#[test]
fn keys_give_their_bits_back() {
    for v in [-1.5f32, -0.0, 0.0, 1e-4, f32::INFINITY] {
        assert_eq!(bits_of_key(total_key(v.to_bits())), v.to_bits());
    }
}

#[test]
fn a_cell_keeps_its_strongest_corner() {
    let mut best = None;
    for (i, score) in [0.25f32, 0.5, 0.5, 0.125].iter().enumerate() {
        best = keep_best(best, total_key(score.to_bits()), i, 9);
    }
    assert_eq!(best, Some((total_key(0.5f32.to_bits()), 1, 9)));
}
