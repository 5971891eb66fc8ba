use smdiff::common::{Add, CopySrc, Format, Op, Run, MAX_WIN_SIZE};
use smdiff::decoder::{apply_patch, SectionReader};
use smdiff::encoder::config::SecondaryCompression;
use smdiff::encoder::section::section_writer;
use smdiff::encoder::trgt_matcher::TrgtMatcherConfig;
use smdiff::merger::transcoder::{make_add_ops, optimize_and_convert_ops, transcode, InnerOp};
use smdiff::reader::SectionIterator;
use smdiff::writer::make_sections;

#[test]
fn test_optimize_and_convert_ops() {
    let inner_ops = vec![
        InnerOp::Add(b"ABC".to_vec()),
        InnerOp::Add(b"DE".to_vec()),
        InnerOp::Run { byte: b'X', len: 3, output_start_pos: 5 },
        InnerOp::Run { byte: b'X', len: 2, output_start_pos: 8 },
        InnerOp::Copy(smdiff::common::Copy { src: CopySrc::Dict, addr: 0, len: 3 }),
    ];

    let optimized_ops = optimize_and_convert_ops(inner_ops);

    assert_eq!(optimized_ops.len(), 3);
    match &optimized_ops[0] {
        Op::Add(add) => assert_eq!(add.bytes, b"ABCDE"),
        _ => panic!("Expected Add op"),
    }
    match &optimized_ops[1] {
        Op::Run(run) => {
            assert_eq!(run.byte, b'X');
            assert_eq!(run.len, 5);
        },
        _ => panic!("Expected Run op"),
    }
}

fn make_ops() -> Vec<Op<Add>> {
    vec![
        Op::Add(Add { bytes: b"ABC".to_vec() }),
        Op::Add(Add { bytes: b"DE".to_vec() }),
        Op::Run(Run { byte: b'X', len: 3 }),
        Op::Run(Run { byte: b'X', len: 2 }),
        Op::Copy(smdiff::common::Copy { src: CopySrc::Dict, addr: 0, len: 3 }),
    ]
}

fn make_correct_ops() -> Vec<Op<Add>> {
    vec![
        Op::Add(Add { bytes: b"ABCDE".to_vec() }),
        Op::Run(Run { byte: b'X', len: 5 }),
        Op::Copy(smdiff::common::Copy { src: CopySrc::Dict, addr: 0, len: 3 }),
    ]
}

fn create_test_patch() -> Vec<u8> {
    let mut sink = Vec::new();
    let comp = Some(SecondaryCompression::Smdiff(TrgtMatcherConfig::default()));
    for (ops, mut header) in make_sections(&make_ops(), MAX_WIN_SIZE) {
        header.format = Format::Segregated;
        section_writer(&comp, header, &mut sink, ops, &mut Vec::new()).unwrap();
    }
    sink
}

#[test]
fn test_transcode() {
    let input = create_test_patch();
    //transcode from Segregated to Interleaved and sec_comp from smdiff to zstd
    let output = transcode(&input, Format::Interleaved, Some(SecondaryCompression::Zstd { level: 3 }), MAX_WIN_SIZE).unwrap();
    let mut reader = SectionReader::new(output);
    let transcoded_ops = reader.next().unwrap().unwrap().0.to_vec();
    assert_eq!(transcoded_ops, make_correct_ops());
}

#[test]
fn transcode_segregated_nested_patch_to_interleaved() {
    let ops = make_ops();
    let mut input = Vec::new();
    let comp = Some(SecondaryCompression::Smdiff(TrgtMatcherConfig::default()));
    for (seg, mut header) in make_sections(&ops, MAX_WIN_SIZE) {
        header.format = Format::Segregated;
        section_writer(&comp, header, &mut input, seg, &mut Vec::new()).unwrap();
    }
    let output = transcode(&input, Format::Interleaved, None, MAX_WIN_SIZE).unwrap();
    let mut reader = SectionIterator::new(output.clone());
    let (read_ops, header) = reader.next_borrowed().unwrap().unwrap();
    assert_eq!(read_ops.to_vec(), make_correct_ops());
    assert!(!header.more_sections);
    let src = b"xyz".to_vec();
    assert_eq!(apply_patch(&output, Some(&src)).unwrap(), apply_patch(&input, Some(&src)).unwrap());
    assert_eq!(apply_patch(&output, Some(&src)).unwrap(), b"ABCDEXXXXXxyz".to_vec());
}

#[test]
fn transcode_with_zstd_keeps_the_output() {
    let ops = make_ops();
    let mut input = Vec::new();
    for (seg, header) in make_sections(&ops, MAX_WIN_SIZE) {
        section_writer(&None, header, &mut input, seg, &mut Vec::new()).unwrap();
    }
    let output = transcode(&input, Format::Segregated, Some(SecondaryCompression::Zstd { level: 3 }), MAX_WIN_SIZE).unwrap();
    assert_eq!(output[0] & 0b0011_1000, 2 << 3);
    let src = b"xyz".to_vec();
    assert_eq!(apply_patch(&output, Some(&src)).unwrap(), b"ABCDEXXXXXxyz".to_vec());
}

#[test]
fn transcode_rejects_a_broken_patch() {
    assert!(transcode(&[0, 3], Format::Interleaved, None, MAX_WIN_SIZE).is_err());
}

#[test]
fn transcoder_make_add_ops_chunks() {
    let mut out = Vec::new();
    make_add_ops(Vec::new(), &mut out);
    assert!(out.is_empty());
    make_add_ops(vec![7], &mut out);
    assert_eq!(out, vec![Op::Run(Run { len: 1, byte: 7 })]);
    let mut out = Vec::new();
    make_add_ops(vec![1u8; 65535 + 10], &mut out);
    assert_eq!(out.len(), 2);
    match (&out[0], &out[1]) {
        (Op::Add(a), Op::Add(b)) => {
            assert_eq!(a.bytes.len(), 65535);
            assert_eq!(b.bytes.len(), 10);
        },
        _ => panic!("Expected two Add ops"),
    }
}

#[test]
fn transcode_groups_three_adds() {
    let input = vec![0u8, 3, 3, 129, 97, 129, 98, 129, 99];
    let output = transcode(&input, Format::Interleaved, None, MAX_WIN_SIZE).unwrap();
    assert_eq!(output, vec![0u8, 1, 3, 131, 97, 98, 99]);
}

#[test]
fn optimize_groups_three_runs_of_one_byte() {
    let inner_ops = vec![
        InnerOp::Run { byte: b'Z', len: 2, output_start_pos: 0 },
        InnerOp::Run { byte: b'Z', len: 3, output_start_pos: 2 },
        InnerOp::Run { byte: b'Z', len: 4, output_start_pos: 5 },
        InnerOp::Add(b"q".to_vec()),
        InnerOp::Add(b"rs".to_vec()),
        InnerOp::Add(b"t".to_vec()),
    ];
    let ops = optimize_and_convert_ops(inner_ops);
    assert_eq!(ops.len(), 2);
    match &ops[0] {
        Op::Run(run) => assert_eq!((run.byte, run.len), (b'Z', 9)),
        _ => panic!("Expected Run op"),
    }
    match &ops[1] {
        Op::Add(add) => assert_eq!(add.bytes, b"qrst"),
        _ => panic!("Expected Add op"),
    }
}

#[test]
fn optimize_stops_joining_at_the_instruction_size() {
    let inner_ops = vec![
        InnerOp::Add(vec![1u8; 40000]),
        InnerOp::Add(vec![2u8; 30000]),
        InnerOp::Add(vec![3u8; 40000]),
    ];
    let ops = optimize_and_convert_ops(inner_ops);
    let lens: Vec<usize> = ops.iter().map(|o| match o { Op::Add(a) => a.bytes.len(), _ => 0 }).collect();
    assert_eq!(lens, vec![65535, 4465, 40000]);
}
