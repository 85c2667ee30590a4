use splattar::buffers::{pad_row_bytes, pad_rows, unpad_rows, ReadbackRing, ROW_ALIGN};
use splattar::context::{backends_from_str, device_request, AdapterOffer, Backends, GpuError};
use splattar::prefix_sum::PrefixSum;
use splattar::profile::GpuTimer;
use splattar::sort::{shift_table, stage_dispatch, Dispatch, RadixSorter, Stage};

#[test]
fn ring_delivers_in_issue_order() {
    let mut ring: ReadbackRing<&str> = ReadbackRing::new(2);
    assert_eq!(ring.encode_copy("a"), Some(0));
    assert_eq!(ring.encode_copy("b"), Some(1));
    assert_eq!(ring.encode_copy("c"), None);
    assert_eq!(ring.in_flight(), 2);
    assert!(ring.any_pending(|t: &&str| *t == "b"));
    assert!(!ring.any_pending(|t: &&str| *t == "c"));
    assert!(!ring.is_fully_mapped());
    assert_eq!(ring.map_pending(), vec![0, 1]);
    assert!(ring.map_pending().is_empty());
    assert!(ring.is_fully_mapped());
    // The second is complete, but waits for the first.
    assert!(ring.poll_ready(&[false, true]).is_empty());
    let out = ring.poll_ready(&[true, false]);
    assert_eq!(out.len(), 1);
    assert_eq!((out[0].slot, out[0].tag), (0, "a"));
    assert_eq!(ring.encode_copy("d"), Some(0));
    assert_eq!(ring.map_pending(), vec![0]);
    let tags: Vec<&str> = ring.drain_blocking().iter().map(|e| e.tag).collect();
    assert_eq!(tags, vec!["b", "d"]);
    assert_eq!(ring.in_flight(), 0);
}

#[test]
fn rows_are_padded_and_unpadded() {
    assert_eq!(pad_row_bytes(1), ROW_ALIGN);
    assert_eq!(pad_row_bytes(256), 256);
    assert_eq!(pad_row_bytes(257), 512);
    let data: Vec<u8> = (0..30).collect();
    let padded = pad_rows(&data, 10, 3);
    assert_eq!(padded.len(), 768);
    assert_eq!(padded[..10], data[..10]);
    assert_eq!(padded[256..266], data[10..20]);
    assert_eq!(padded[10], 0);
    assert_eq!(unpad_rows(&padded, 10, 3), data);
}

/// Runs a plan over real numbers as the shaders do.
fn run_scan(input: &[u32]) -> Vec<u32> {
    let scan = PrefixSum::new(input.len() as u32);
    let plan = scan.encode(input.len() as u32);
    let mut levels: Vec<Vec<u32>> = vec![input.to_vec()];
    for d in &plan.scans {
        let count = u32::from_ne_bytes(plan.params[d.level].clone().try_into().unwrap()) as usize;
        let mut sums = Vec::new();
        for b in 0..d.groups as usize {
            let mut acc = 0;
            for i in b * 1024..((b + 1) * 1024).min(count) {
                let v = levels[d.level][i];
                levels[d.level][i] = acc;
                acc += v;
            }
            sums.push(acc);
        }
        assert!(sums.len() as u64 * 4 <= scan.sums_bytes(d.level));
        levels.push(sums);
    }
    for d in &plan.adds {
        let count = u32::from_ne_bytes(plan.params[d.level].clone().try_into().unwrap()) as usize;
        for i in 0..count {
            let v = levels[d.level + 1][i / 1024];
            levels[d.level][i] += v;
        }
    }
    levels.swap_remove(0)
}

#[test]
fn scan_plan_computes_exclusive_sums() {
    for n in [1usize, 5, 1024, 1025, 5000, 1_100_000] {
        let input: Vec<u32> = (0..n as u32).map(|i| i * 7 % 5).collect();
        let got = run_scan(&input);
        let mut acc = 0;
        for i in 0..n {
            assert_eq!(got[i], acc, "{n} elements, at {i}");
            acc += input[i];
        }
    }
}

#[test]
fn scan_levels_and_parameters() {
    let scan = PrefixSum::new(3_000_000);
    assert_eq!(scan.level_count(), 3);
    assert_eq!(scan.data_bytes(0), 12_000_000);
    assert_eq!(scan.sums_bytes(0), 2930 * 4);
    assert_eq!(scan.data_bytes(2), 3 * 4);
    let plan = scan.encode(2_000_000);
    // The count is written as the machine stores it.
    assert_eq!(plan.params[0], 2_000_000u32.to_ne_bytes().to_vec());
    assert_eq!(plan.params[1], 1954u32.to_ne_bytes().to_vec());
    let scans: Vec<(usize, u32)> = plan.scans.iter().map(|d| (d.level, d.groups)).collect();
    assert_eq!(scans, vec![(0, 1954), (1, 2), (2, 1)]);
    let adds: Vec<(usize, u32)> = plan.adds.iter().map(|d| (d.level, d.groups)).collect();
    assert_eq!(adds, vec![(1, 2), (0, 1954)]);
    assert_eq!(PrefixSum::new(0).level_count(), 1);
    assert_eq!(scan.encode(0).scans[0].groups, 1);
}

#[test]
fn passes_sort_stably() {
    let sorter = RadixSorter::new(4000);
    assert_eq!(sorter.capacity(), 4000);
    let table = shift_table();
    let mut state: u32 = 12345;
    let keys: Vec<u32> = (0..4000)
        .map(|i| {
            state = state.wrapping_mul(1_664_525).wrapping_add(1_013_904_223);
            if i % 3 == 0 { state % 50 } else { state }
        })
        .collect();
    let first: Vec<(u32, usize)> = keys.iter().copied().zip(0..).collect();
    let mut buffers = [first, Vec::new()];
    for pass in sorter.encode() {
        let at = pass.uniform_offset as usize;
        let shift = u32::from_le_bytes(table[at..at + 4].try_into().unwrap());
        let mut out = Vec::new();
        for digit in 0..16 {
            out.extend(buffers[pass.input].iter().filter(|e| (e.0 >> shift) & 15 == digit));
        }
        buffers[pass.output] = out;
    }
    let mut want: Vec<(u32, usize)> = keys.iter().copied().zip(0..).collect();
    want.sort_by_key(|e| e.0);
    assert_eq!(buffers[0], want);
}

#[test]
fn sort_buffers_and_dispatches() {
    let s = RadixSorter::new(2500).sizes();
    assert_eq!((s.elements, s.block_hists), (10_000, 3 * 64));
    assert_eq!((s.counts, s.digit_offsets, s.digit_totals, s.dispatch_args), (4, 64, 64, 12));
    assert_eq!(RadixSorter::new(0).sizes().elements, 4);
    assert_eq!(stage_dispatch(Stage::Histogram), Dispatch::Indirect);
    assert_eq!(stage_dispatch(Stage::ScanColumns), Dispatch::Groups(16));
    assert_eq!(stage_dispatch(Stage::ScanTotals), Dispatch::Groups(1));
    assert_eq!(stage_dispatch(Stage::Scatter), Dispatch::Indirect);
}

#[test]
fn timer_reads_its_scopes_back() {
    let mut t = GpuTimer::new(true, 2);
    assert_eq!((t.query_count(), t.buffer_bytes()), (4, 32));
    assert_eq!(t.resolve(), None);
    let q = t.compute_scope("sort").unwrap();
    assert_eq!((q.begin, q.end), (0, 1));
    let q = t.render_scope("draw").unwrap();
    assert_eq!((q.begin, q.end), (2, 3));
    assert!(t.compute_scope("more").is_none());
    assert_eq!(t.resolve(), Some(4));
    let bytes: Vec<u8> =
        [1000u64, 1500, 9000, 8000].iter().flat_map(|v| v.to_ne_bytes()).collect();
    let out = t.read(&bytes);
    assert_eq!(out.len(), 2);
    assert_eq!((out[0].label.as_str(), out[0].ticks), ("sort", 500));
    // A clock that ran backwards counts as no time.
    assert_eq!((out[1].label.as_str(), out[1].ticks), ("draw", 0));
    assert_eq!(t.resolve(), None);
    t.compute_scope("again").unwrap();
    assert_eq!(t.read_ticks(&[3, 10])[0].ticks, 7);
}

#[test]
fn timer_without_queries_does_nothing() {
    let mut t = GpuTimer::new(false, 4);
    assert!(t.compute_scope("sort").is_none());
    assert_eq!(t.resolve(), None);
    assert!(t.read(&[]).is_empty());
}

#[test]
fn backends_are_named() {
    let only = |vulkan, dx12, gl| Backends { vulkan, dx12, gl };
    assert_eq!(backends_from_str(None).unwrap(), only(true, true, true));
    assert_eq!(backends_from_str(Some("")).unwrap(), only(true, true, true));
    assert_eq!(backends_from_str(Some("vulkan")).unwrap(), only(true, false, false));
    assert_eq!(backends_from_str(Some("dx12")).unwrap(), only(false, true, false));
    assert_eq!(backends_from_str(Some("gl")).unwrap(), only(false, false, true));
    match backends_from_str(Some("metal")) {
        Err(e) => assert_eq!(
            e.message(),
            "unknown backend `metal` (expected vulkan, dx12, or gl)"
        ),
        Ok(_) => panic!("no such backend"),
    }
    assert_eq!(
        GpuError::NoAdapter("x".to_string()).message(),
        "no compatible GPU adapter found: x"
    );
    assert_eq!(
        GpuError::DeviceRequest("y".to_string()).message(),
        "device request failed: y"
    );
}

#[test]
fn device_asks_for_what_is_offered() {
    let offer = AdapterOffer {
        max_storage_buffer_binding_size: 1 << 30,
        max_buffer_size: 1 << 31,
        max_storage_buffers_per_shader_stage: 64,
        timestamp_query: true,
        subgroup: true,
    };
    let r = device_request(offer, false);
    assert_eq!(r.max_storage_buffers_per_shader_stage, 16);
    assert_eq!((r.max_buffer_size, r.timestamp_query, r.subgroup), (1 << 31, true, true));
    assert!(!device_request(offer, true).subgroup);
    let small = AdapterOffer { max_storage_buffers_per_shader_stage: 8, ..offer };
    assert_eq!(device_request(small, false).max_storage_buffers_per_shader_stage, 8);
}
