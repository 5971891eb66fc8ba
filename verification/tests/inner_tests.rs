use smdiff::encoder::config::SecondaryCompression;
use smdiff::encoder::inner::{encode_inner, GenericEncoderConfig, InnerOp, LargerTrgtNaiveTests};
use smdiff::encoder::src_matcher::SrcMatcherConfig;

fn src_only(naive: Option<LargerTrgtNaiveTests>) -> GenericEncoderConfig {
    GenericEncoderConfig::new(None, Some(SrcMatcherConfig::comp_level(3)), naive, Some(45))
}

#[test]
fn inner_empty_target_gives_no_matches() {
    let mut config = src_only(Some(LargerTrgtNaiveTests::Append));
    let ops = encode_inner(&mut config, b"some source", b"");
    assert!(ops.is_empty());
}

#[test]
fn inner_no_matcher_gives_no_matches() {
    let mut config = GenericEncoderConfig::new(None, None, None, None);
    let ops = encode_inner(&mut config, b"abcdefghijklmnop", b"abcdefghijklmnop");
    assert!(ops.is_empty());
}

#[test]
fn inner_append_takes_the_source_first() {
    let src = b"the quick brown fox jumps over the lazy dog".to_vec();
    let mut trgt = src.clone();
    trgt.extend_from_slice(b" and then some entirely new words follow here");
    let mut config = src_only(Some(LargerTrgtNaiveTests::Append));
    let ops = encode_inner(&mut config, &src, &trgt);
    assert!(!ops.is_empty());
    assert_eq!(ops[0], InnerOp::MatchSrc { start: 0, length: src.len(), o_pos: 0 });
}

#[test]
fn inner_prepend_takes_the_source_last() {
    let src = b"the quick brown fox jumps over the lazy dog".to_vec();
    let mut trgt = b"a brand new opening line comes before it: ".to_vec();
    let head = trgt.len();
    trgt.extend_from_slice(&src);
    let mut config = src_only(Some(LargerTrgtNaiveTests::Prepend));
    let ops = encode_inner(&mut config, &src, &trgt);
    assert!(!ops.is_empty());
    assert_eq!(*ops.last().unwrap(), InnerOp::MatchSrc { start: 0, length: src.len(), o_pos: head });
    for op in &ops[..ops.len() - 1] {
        assert!(op.o_pos() < head);
    }
}

#[test]
fn smdiff_default_settings() {
    match SecondaryCompression::new_smdiff_default() {
        SecondaryCompression::Smdiff(c) => {
            assert_eq!(c.compress_early_exit, 27);
            assert_eq!(c.chain_check, 11);
            assert_eq!(c.prev_table_capacity, None);
        },
        _ => panic!("expected the nested patch compression"),
    }
}

#[test]
fn brotli_takes_the_first_free_algorithm_value() {
    assert_eq!(SecondaryCompression::new_brotli_default().algo_value(), 4);
    assert_eq!(SecondaryCompression::new_zstd_default().algo_value(), 2);
    assert_eq!(SecondaryCompression::new_smdiff_default().algo_value(), 1);
}

#[test]
fn encoder_config_defaults() {
    let c = smdiff::encoder::config::EncoderConfig::new();
    assert_eq!(c.lazy_escape_len, Some(45));
    assert_eq!(c.match_src.unwrap().l_step, SrcMatcherConfig::comp_level(3).l_step);
    assert!(c.naive_tests.is_none());
}

#[test]
fn inner_prepend_with_short_head_gives_only_the_source() {
    let mut config = src_only(Some(LargerTrgtNaiveTests::Prepend));
    let ops = encode_inner(&mut config, b"0123456789", b"abc0123456789");
    assert_eq!(ops, vec![InnerOp::MatchSrc { start: 0, length: 10, o_pos: 3 }]);
}

#[test]
fn inner_run_at_the_start_is_found() {
    let mut config = GenericEncoderConfig::new(Some(smdiff::encoder::trgt_matcher::TrgtMatcherConfig::comp_level(3)), None, None, None);
    let ops = encode_inner(&mut config, b"", &[7u8; 10]);
    assert_eq!(ops[0], InnerOp::Run { byte: 7, length: 10, o_pos: 0 });
}

#[test]
fn inner_same_source_and_target_is_one_copy() {
    let src = b"the quick brown fox jumps over the lazy dog, then sleeps".to_vec();
    let mut config = src_only(None);
    let ops = encode_inner(&mut config, &src, &src);
    assert_eq!(ops, vec![InnerOp::MatchSrc { start: 0, length: src.len(), o_pos: 0 }]);
}

#[test]
fn inner_shared_prefix_is_copied_from_the_source_start() {
    let src = b"common beginning of both files, then the source goes on".to_vec();
    let trgt = b"common beginning of both, but the target goes elsewhere entirely".to_vec();
    let mut config = src_only(None);
    let ops = encode_inner(&mut config, &src, &trgt);
    assert!(!ops.is_empty());
    assert_eq!(ops[0], InnerOp::MatchSrc { start: 0, length: 24, o_pos: 0 });
}

#[test]
fn inner_source_in_the_middle_is_found() {
    let src = b"0123456789abcdefghijklmnopqrstuvwxyzABCDEFGHIJKLMNOPQRSTUVWX".to_vec();
    let mut trgt = b"zyxwvutsrq".to_vec();
    trgt.extend_from_slice(&src);
    trgt.extend_from_slice(b"ponmlkjihg");
    let mut config = src_only(None);
    let ops = encode_inner(&mut config, &src, &trgt);
    assert!(ops.contains(&InnerOp::MatchSrc { start: 0, length: src.len(), o_pos: 10 }));
}
