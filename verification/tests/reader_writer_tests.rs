use smdiff::common::{Add, CopySrc, Format, Op, Run, SectionHeader};
use smdiff::reader::SectionIterator;
use smdiff::writer::{make_sections, write_ops, write_section_header};

fn seg_header(num_operations: u32, num_add_bytes: u32, output_size: u32, more_sections: bool) -> SectionHeader {
    SectionHeader { compression_algo: 0, format: Format::Segregated, num_operations, num_add_bytes, output_size, more_sections }
}

/// Reads every section and checks each one's operations against `expected`.
fn read_back(bytes: Vec<u8>, expected: &[Vec<Op<Add>>]) {
    let mut reader = SectionIterator::new(bytes);
    let mut ops_iter = expected.iter();
    let mut sections = 0;
    while let Some(res) = reader.next_borrowed() {
        let (read_ops, _) = res.unwrap();
        let ans_ops = ops_iter.next().unwrap();
        assert_eq!(read_ops.len(), ans_ops.len());
        for (op, answer) in read_ops.iter().zip(ans_ops.clone()) {
            assert_eq!(op, &answer);
        }
        sections += 1;
    }
    assert_eq!(sections, expected.len());
}

fn basic_add_run_ops() -> Vec<Op<Add>> {
    vec![
        Op::Add(Add::new("he".as_bytes().to_vec())),
        Op::Run(Run { byte: b'l', len: 2 }),
        Op::Add(Add::new("o".as_bytes().to_vec())),
    ]
}

const BASIC_ADD_RUN: [u8; 10] = [
    0,   // 0b0_0_000_000
    3,   //num_ops uvarint
    5,   //output size uvarint
    130, //ADD, Size 2 0b10_000010
    104, //'h'
    101, //'e'
    194, //RUN, Size 2 0b11_000010
    108, //'l'
    129, //ADD, Size 1 0b10_000001
    111, //'o'
];

#[test]
fn test_basic_add_run() {
    read_back(BASIC_ADD_RUN.to_vec(), &[basic_add_run_ops()]);
}

#[test]
fn lib_test_basic_add_run() {
    let ops = basic_add_run_ops();
    let header = SectionHeader {
        compression_algo: 0,
        format: Format::Interleaved,
        num_operations: 3,
        num_add_bytes: 3,
        output_size: 5,
        more_sections: false,
    };
    let mut writer = Vec::new();
    write_section_header(&header, &mut writer).unwrap();
    write_ops(&ops, &header, &mut writer).unwrap();
    assert_eq!(writer, BASIC_ADD_RUN.to_vec());
}

fn hello_micro_ops() -> Vec<Op<Add>> {
    vec![
        Op::Add(Add::new("H".as_bytes().to_vec())),
        Op::Copy(smdiff::common::Copy { src: CopySrc::Dict, addr: 1, len: 4 }),
        Op::Add(Add::new("! ".as_bytes().to_vec())),
        Op::Copy(smdiff::common::Copy { src: CopySrc::Output, addr: 0, len: 6 }),
    ]
}

const HELLO_MICRO: [u8; 12] = [0, 4, 13, 129, 72, 4, 2, 130, 33, 32, 70, 0];

#[test]
fn test_hello_micro() {
    read_back(HELLO_MICRO.to_vec(), &[hello_micro_ops()]);
}

#[test]
fn lib_test_hello_micro() {
    let ops = hello_micro_ops();
    let header = SectionHeader {
        compression_algo: 0,
        format: Format::Interleaved,
        num_operations: 4,
        num_add_bytes: 3,
        output_size: 13,
        more_sections: false,
    };
    let mut writer = Vec::new();
    write_section_header(&header, &mut writer).unwrap();
    write_ops(&ops, &header, &mut writer).unwrap();
    assert_eq!(writer, HELLO_MICRO.to_vec());
}

fn hello_win_sections() -> Vec<(Vec<Op<Add>>, SectionHeader)> {
    vec![
        (vec![Op::Add(Add::new("H".as_bytes().to_vec()))], seg_header(1, 1, 1, true)),
        (vec![Op::Copy(smdiff::common::Copy { src: CopySrc::Dict, addr: 1, len: 4 })], seg_header(1, 0, 4, true)),
        (vec![Op::Add(Add::new("! ".as_bytes().to_vec()))], seg_header(1, 2, 2, true)),
        (vec![Op::Copy(smdiff::common::Copy { src: CopySrc::Output, addr: 0, len: 6 })], seg_header(1, 0, 6, false)),
    ]
}

const HELLO_WIN: [u8; 25] = [
    192, 1, 1, 0, 129, 72, //
    192, 1, 0, 4, 4, 2, //
    192, 1, 2, 0, 130, 33, 32, //
    64, 1, 0, 6, 70, 0,
];

#[test]
fn test_hello_win() {
    let expected: Vec<Vec<Op<Add>>> = hello_win_sections().into_iter().map(|s| s.0).collect();
    read_back(HELLO_WIN.to_vec(), &expected);
}

#[test]
fn lib_test_hello_win() {
    let mut writer = Vec::new();
    let sections = hello_win_sections();
    for (ops, header) in &sections {
        write_section_header(header, &mut writer).unwrap();
        write_ops(ops, header, &mut writer).unwrap();
    }
    assert_eq!(writer, HELLO_WIN.to_vec());
}

#[test]
fn lib_kitchen_sink_transform() {
    // the fifth section copies 4 bytes
    let mut sections = hello_win_sections();
    sections[3].1.more_sections = true;
    sections.push((vec![Op::Copy(smdiff::common::Copy { src: CopySrc::Output, addr: 6, len: 4 })], seg_header(1, 0, 4, true)));
    sections.push((vec![Op::Run(Run { byte: b'.', len: 3 })], seg_header(1, 0, 3, false)));
    let mut writer = Vec::new();
    for (ops, header) in &sections {
        write_section_header(header, &mut writer).unwrap();
        write_ops(ops, header, &mut writer).unwrap();
    }
    let answer = vec![
        192, 1, 1, 0, 129, 72, //
        192, 1, 0, 4, 4, 2, //
        192, 1, 2, 0, 130, 33, 32, //
        192, 1, 0, 6, 70, 0, //
        192, 1, 0, 4, 68, 12, //
        64, 1, 0, 3, 195, 46,
    ];
    assert_eq!(writer, answer);
}

#[test]
fn kitchen_sink_transform() {
    // the fifth section copies 5 bytes
    let answer = vec![
        192, 1, 1, 0, 129, 72, //
        192, 1, 0, 4, 4, 2, //
        192, 1, 2, 0, 130, 33, 32, //
        192, 1, 0, 6, 70, 0, //
        192, 1, 0, 5, 69, 12, //
        64, 1, 0, 3, 195, 46,
    ];
    let mut expected: Vec<Vec<Op<Add>>> = hello_win_sections().into_iter().map(|s| s.0).collect();
    expected.push(vec![Op::Copy(smdiff::common::Copy { src: CopySrc::Output, addr: 6, len: 5 })]);
    expected.push(vec![Op::Run(Run { byte: b'.', len: 3 })]);
    read_back(answer, &expected);
}

#[test]
fn write_ops_rejects_a_header_that_does_not_match() {
    let ops = vec![Op::Add(Add::new(b"ab".to_vec()))];
    let header = SectionHeader {
        compression_algo: 0,
        format: Format::Interleaved,
        num_operations: 2,
        num_add_bytes: 0,
        output_size: 2,
        more_sections: false,
    };
    let mut writer = Vec::new();
    assert!(write_ops(&ops, &header, &mut writer).is_err());
    let header = SectionHeader { num_operations: 1, output_size: 3, ..header };
    assert!(write_ops(&ops, &header, &mut writer).is_err());
}

#[test]
fn make_sections_splits_by_output_size() {
    let ops: Vec<Op<Add>> = (0..3).map(|_| Op::Copy(smdiff::common::Copy { src: CopySrc::Dict, addr: 0, len: 40000 })).collect();
    let sections = make_sections(&ops, 65535);
    assert_eq!(sections.len(), 3);
    for (i, (seg, header)) in sections.iter().enumerate() {
        assert_eq!(seg.len(), 1);
        assert_eq!(header.num_operations, 1);
        assert_eq!(header.output_size, 40000);
        assert_eq!(header.more_sections, i < 2);
    }
    let sections = make_sections(&ops, usize::MAX);
    assert_eq!(sections.len(), 1);
    assert_eq!(sections[0].1.output_size, 120000);
    let empty: Vec<Op<Add>> = Vec::new();
    let sections = make_sections(&empty, 100);
    assert_eq!(sections.len(), 1);
    assert_eq!(sections[0].1.num_operations, 0);
}
