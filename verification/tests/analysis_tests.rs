use smdiff::analysis::{dict_copy_lens, first_mismatch, section_stats, Stats};
use smdiff::common::{Add, CopySrc, Op, Run};

fn section() -> Vec<Op<Add>> {
    vec![
        Op::Add(Add::new(b"abc".to_vec())),
        Op::Copy(smdiff::common::Copy { src: CopySrc::Dict, addr: 0, len: 9 }),
        Op::Run(Run { byte: 7, len: 4 }),
        Op::Copy(smdiff::common::Copy { src: CopySrc::Output, addr: 0, len: 5 }),
        Op::Copy(smdiff::common::Copy { src: CopySrc::Dict, addr: 20, len: 4 }),
        Op::Copy(smdiff::common::Copy { src: CopySrc::Dict, addr: 3, len: 9 }),
    ]
}

#[test]
fn section_stats_count_each_kind() {
    let stats = section_stats(&section());
    let mut expected = Stats::new();
    expected.add(3);
    expected.copy_s(9);
    expected.run(4);
    expected.copy_t(5);
    expected.copy_s(4);
    expected.copy_s(9);
    assert_eq!(stats, expected);
    assert_eq!(stats.output_size, 34);
    assert_eq!(stats.copy_s_cnt, 3);
    assert!(stats.has_copy());
}

#[test]
fn dict_copy_lengths_in_increasing_order() {
    assert_eq!(dict_copy_lens(&section()), vec![(4, 1), (9, 2)]);
    assert_eq!(dict_copy_lens(&[]), vec![]);
}

#[test]
fn first_mismatch_finds_the_first_difference() {
    assert_eq!(first_mismatch(b"abcdef", b"abcxef"), Some(3));
    assert_eq!(first_mismatch(b"abc", b"abcdef"), None);
    assert_eq!(first_mismatch(b"", b"x"), None);
    assert_eq!(first_mismatch(b"x", b"y"), Some(0));
}
