use smdiff::encoder::section::encode;
use smdiff::decoder::apply_patch;
use smdiff::encoder::config::{BrotliMode, BrotliOptions, EncoderConfig, SecondaryCompression};
use smdiff::encoder::trgt_matcher::TrgtMatcherConfig;
use smdiff::common::SmdiffError;
use smdiff::common::{Add, CopySrc, Op, Run, MAX_RUN_LEN};
use smdiff::encoder::hasher::{calculate_large_checksum, update_large_checksum_bwd, update_large_checksum_fwd};
use smdiff::encoder::op_maker::make_run_ops;
use smdiff::encoder::ranger::Ranger;
use smdiff::encoder::src_matcher::{calculate_default_win_size, calculate_window_range, DEFAULT_SRC_WIN_SIZE, MIN_SRC_WIN_SIZE};

#[test]
fn test_rolling_hash_fwd() {
    let initial_data = b"hello world, this is a test of the rolling hash"; // Longer example
    // Simulate a rolling window
    let mut hash = calculate_large_checksum(&initial_data[..]);
    for i in 1..(initial_data.len() - 20) {
        let old_char = initial_data[i - 1];
        let new_char = initial_data[i + 8];
        let expected_hash = calculate_large_checksum(&initial_data[i..]);
        hash = update_large_checksum_fwd(hash, old_char, new_char);
        assert_eq!(hash, expected_hash, "config.update Failed at starting index {}", i);
    }
}

#[test]
fn test_rolling_hash_bwd() {
    let initial_data = b"hello world, this is a test of the rolling hash"; // Longer example
    let start_i = (initial_data.len() - 20) - 9;
    // Simulate a rolling window
    let mut hash = calculate_large_checksum(&initial_data[start_i..]);
    for i in (0..start_i).rev() {
        let hash_win = &initial_data[i..];
        let new_char = initial_data[i];
        let old_char = initial_data[i + 9];
        let expected_hash = calculate_large_checksum(hash_win);
        hash = update_large_checksum_bwd(hash, old_char, new_char);
        assert_eq!(hash, expected_hash, "config.update Failed at starting index {}", i);
    }
}

#[test]
fn test_regular_mapping() {
    let interpolator = Ranger::new(1..11, 1..=100);
    assert_eq!(interpolator.map(1), 1);
    assert_eq!(interpolator.map(2), 12);
    assert_eq!(interpolator.map(3), 23);
    assert_eq!(interpolator.map(4), 34);
    assert_eq!(interpolator.map(5), 45);
    assert_eq!(interpolator.map(6), 56);
    assert_eq!(interpolator.map(7), 67);
    assert_eq!(interpolator.map(8), 78);
    assert_eq!(interpolator.map(9), 89);
    assert_eq!(interpolator.map(10), 100);
}

#[test]
fn test_inverted_mapping() {
    let interpolator = Ranger::new(1..11, 100..=1); // Inverted range
    assert_eq!(interpolator.map(1), 100);
    assert_eq!(interpolator.map(5), 56);
    assert_eq!(interpolator.map(10), 1);
}

#[test]
fn test_out_of_range_input() {
    let interpolator = Ranger::new(3..10, 0..=100);
    assert_eq!(interpolator.map(0), interpolator.map(3)); // Below range
    assert_eq!(interpolator.map(11), interpolator.map(10)); // Above range
}

#[test]
fn test_small_run() {
    let mut output: Vec<Op<Add>> = Vec::new();
    make_run_ops(0xAA, 120, 0, &mut output);
    assert_eq!(output.len(), 2);
    assert!(matches!(output[0], Op::Run(Run { byte: 0xAA, len: 62 })));
    assert!(matches!(output[1], Op::Run(Run { byte: 0xAA, len: 58 })));
}

#[test]
fn test_exact_run_limit() {
    let mut output: Vec<Op<Add>> = Vec::new();
    let run_limit = (MAX_RUN_LEN as usize) * 6;
    make_run_ops(0xBB, run_limit, 0, &mut output);
    assert_eq!(output.len(), 4); // 3 maximum-length runs + 1 Copy of all of them.
    for op in &output[..3] {
        assert!(matches!(op, Op::Run(Run { byte: 0xBB, len: MAX_RUN_LEN })));
    }
    let copy = &output[3];
    assert!(matches!(copy, Op::Copy(smdiff::common::Copy { src: CopySrc::Output, addr: 0, len: 186 })), "{:?}", copy);
}

#[test]
fn test_large_run_needing_copies() {
    let mut output: Vec<Op<Add>> = Vec::new();
    let run_limit = (MAX_RUN_LEN as usize) * 6;
    make_run_ops(0xBB, run_limit + 100, 0, &mut output);
    assert_eq!(output.len(), 5); // 3 maximum-length runs + 2 Copies.
    for op in &output[..3] {
        assert!(matches!(op, Op::Run(Run { byte: 0xBB, len: MAX_RUN_LEN })));
    }
    let copy = &output[3];
    assert!(matches!(copy, Op::Copy(smdiff::common::Copy { src: CopySrc::Output, addr: 0, len: 186 })), "{:?}", copy);
    let copy = &output[4];
    assert!(matches!(copy, Op::Copy(smdiff::common::Copy { src: CopySrc::Output, addr: 0, len: 100 })), "{:?}", copy);
}

#[test]
fn test_large_run_needing_copies2() {
    let mut output: Vec<Op<Add>> = Vec::new();
    make_run_ops(0xBB, 414, 0, &mut output);
    assert_eq!(output.len(), 5); // 3 maximum-length runs + 2 Copies.
    for op in &output[..3] {
        assert!(matches!(op, Op::Run(Run { byte: 0xBB, len: MAX_RUN_LEN })));
    }
    let copy = &output[3];
    assert!(matches!(copy, Op::Copy(smdiff::common::Copy { src: CopySrc::Output, addr: 0, len: 186 })), "{:?}", copy);
    let copy = &output[4];
    assert!(matches!(copy, Op::Copy(smdiff::common::Copy { src: CopySrc::Output, addr: 0, len: 42 })), "{:?}", copy);
}

#[test]
fn test_zero_length() {
    let mut output: Vec<Op<Add>> = Vec::new();
    make_run_ops(0xDD, 0, 0, &mut output);
    assert!(output.is_empty());
}

#[test]
fn test_calculate_window_range_lrg_trgt() {
    let half_win_size = 256;
    let l_step = 2;
    let src_len = 1000;
    let trgt_len = 2000;
    let max_end_pos = 994;

    // Initial fast forward
    let result = calculate_window_range(10, src_len, trgt_len, half_win_size, max_end_pos, 0, l_step, 0);
    assert_eq!(result.unwrap(), 0..512, "Initial fast forward: Incorrect range");

    let result = calculate_window_range(10, src_len, trgt_len, 512, max_end_pos, 0, l_step, 0);
    assert!(result.is_some(), "Initial fast forward: Expected Some(0..1024), but got {:?}", result);
    assert_eq!(result.unwrap(), 0..max_end_pos, "Initial fast forward: Incorrect range");

    // End of file
    let result = calculate_window_range(900, src_len, trgt_len, half_win_size, max_end_pos, 1000, l_step, 0);
    assert!(result.is_none(), "End of file: Expected None, but got {:?}", result);

    // Nothing more to hash
    let result = calculate_window_range(500, src_len, trgt_len, half_win_size, max_end_pos, 700, l_step, 0);
    assert!(result.is_none(), "Nothing to hash: Expected None, but got {:?}", result);

    // Normal advancement
    let result = calculate_window_range(1250, src_len, trgt_len, half_win_size, max_end_pos, 512, l_step, 0);
    assert_eq!(result.unwrap(), 512..880, "Normal advancement: Incorrect range");

    // Scaled end too far
    let result = calculate_window_range(400, src_len, trgt_len, half_win_size, max_end_pos, 300, l_step, 1000);
    assert!(result.is_none(), "Scaled end too far: Expected None, but got {:?}", result);

    // Match is ahead of position
    let result = calculate_window_range(400, src_len, trgt_len, half_win_size, max_end_pos, 300, l_step, 700);
    assert!(result.is_none(), "Max Match Exceeds Position: Expected None, but got {:?}", result);
}

#[test]
fn test_calculate_default_win_size_various_conditions() {
    // Testing when source length is much larger than target length
    let src_len = 2_000_000;
    let trgt_len = 100;
    assert_eq!(calculate_default_win_size(src_len, trgt_len, None), src_len.next_power_of_two(), "test_large_source_small_target");

    // Testing when target length is much larger than source length
    let src_len = 100;
    let trgt_len = 2_000_000;
    assert_eq!(calculate_default_win_size(src_len, trgt_len, None), src_len.next_power_of_two(), "test_small_source_large_target");

    // Testing when source and target lengths are the same
    let src_len = 100_000_000;
    let trgt_len = 90_000_000;
    assert_eq!(calculate_default_win_size(src_len, trgt_len, None), 10_000_000usize.next_power_of_two(), "test_different_lengths");

    // Testing when the difference is below MIN_SRC_WIN_SIZE
    let src_len = 100_000_000;
    let trgt_len = (src_len - MIN_SRC_WIN_SIZE) + 10;
    assert_eq!(
        calculate_default_win_size(src_len, trgt_len, None),
        (src_len - trgt_len).next_power_of_two() + MIN_SRC_WIN_SIZE,
        "test_diff_below_min_src_win_size"
    );

    // Very large difference
    let src_len = 100_000_000;
    let trgt_len = 25_000_000;
    assert_eq!(calculate_default_win_size(src_len, trgt_len, None), DEFAULT_SRC_WIN_SIZE, "test_source_below_min_src_win_size");
}

fn sample_pair() -> (Vec<u8>, Vec<u8>) {
    let mut src = Vec::new();
    for i in 0..3000u32 {
        src.push((i * 7 % 251) as u8);
    }
    let mut trgt = src[100..2000].to_vec();
    trgt.extend_from_slice(&[9u8; 500]);
    trgt.extend_from_slice(b"some fresh bytes that are not in the source at all");
    trgt.extend_from_slice(&src[50..900]);
    trgt.extend_from_slice(&trgt.clone()[0..300]);
    (src, trgt)
}

#[test]
fn encode_then_apply_gives_the_target() {
    let (src, trgt) = sample_pair();
    let config = EncoderConfig::default();
    let patch = encode(Some(&src), &trgt, &config).unwrap();
    assert_eq!(apply_patch(&patch, Some(&src)).unwrap(), trgt);
    assert!(patch.len() < trgt.len());
}

#[test]
fn encode_with_each_secondary_compression_round_trips() {
    let (src, trgt) = sample_pair();
    let comps = [
        SecondaryCompression::Smdiff(TrgtMatcherConfig::comp_level(3)),
        SecondaryCompression::Zstd { level: 3 },
        SecondaryCompression::Brotli { options: BrotliOptions { quality: Some(5), window_bits: None, block_bits: None, mode: None } },
        SecondaryCompression::Brotli { options: BrotliOptions { quality: Some(9), window_bits: Some(20), block_bits: Some(18), mode: Some(BrotliMode::Text) } },
    ];
    for comp in comps {
        let config = EncoderConfig::comp_level(5, true, Some(comp)).set_output_segment_size(1000);
        let patch = encode(Some(&src), &trgt, &config).unwrap();
        assert_eq!(patch[0] & 0b0011_1000, comp.algo_value() << 3);
        assert_eq!(apply_patch(&patch, Some(&src)).unwrap(), trgt);
    }
}

#[test]
fn encode_without_source_and_empty_target() {
    let (_, trgt) = sample_pair();
    let config = EncoderConfig::default().set_match_target(smdiff::encoder::trgt_matcher::TrgtMatcherConfig::default());
    let patch = encode(None, &trgt, &config).unwrap();
    assert_eq!(apply_patch(&patch, None).unwrap(), trgt);
    let patch = encode(None, &[], &EncoderConfig::default()).unwrap();
    assert_eq!(patch, vec![0, 0, 0]);
    assert_eq!(apply_patch(&patch, None).unwrap(), Vec::<u8>::new());
}

#[test]
fn brotli_refuses_a_bad_quality() {
    let (src, trgt) = sample_pair();
    let bad = SecondaryCompression::Brotli { options: BrotliOptions { quality: Some(12), window_bits: None, block_bits: None, mode: None } };
    let config = EncoderConfig::default().set_sec_comp(bad);
    assert_eq!(encode(Some(&src), &trgt, &config), Err(SmdiffError::Compression));
}
