use smdiff::common::{Add, CopySrc, Format, Op, Run, SectionHeader};
use smdiff::decoder::apply_patch;
use smdiff::merger::Merger;
use smdiff::writer::{write_ops, write_section_header};

fn write_section(sink: &mut Vec<u8>, header: SectionHeader, ops: &[Op<Add>]) {
    write_section_header(&header, sink).unwrap();
    write_ops(ops, &header, sink).unwrap();
}

fn header(num_operations: u32, output_size: u32, more_sections: bool) -> SectionHeader {
    SectionHeader {
        num_operations,
        num_add_bytes: 0,
        output_size,
        compression_algo: 0,
        format: Format::Interleaved,
        more_sections,
    }
}

fn add(b: &[u8]) -> Op<Add> {
    Op::Add(Add { bytes: b.to_vec() })
}

fn copy_d(addr: u64, len: u16) -> Op<Add> {
    Op::Copy(smdiff::common::Copy { src: CopySrc::Dict, addr, len })
}

fn copy_o(addr: u64, len: u16) -> Op<Add> {
    Op::Copy(smdiff::common::Copy { src: CopySrc::Output, addr, len })
}

fn copy_patch() -> Vec<u8> {
    let mut sink = Vec::new();
    write_section(&mut sink, header(2, 10, false), &[copy_d(0, 5), copy_d(0, 5)]);
    sink
}

fn add_run_patch() -> Vec<u8> {
    let mut sink = Vec::new();
    write_section(
        &mut sink,
        header(5, 10, false),
        &[add(b"A"), copy_d(1, 2), Op::Run(Run { byte: b'X', len: 3 }), add(b"YZ"), copy_d(3, 2)],
    );
    sink
}

fn complex_patch() -> Vec<u8> {
    let mut sink = Vec::new();
    write_section(
        &mut sink,
        header(5, 10, false),
        &[add(b"Y"), Op::Run(Run { byte: b'Z', len: 2 }), copy_d(4, 1), copy_o(2, 2), copy_d(1, 4)],
    );
    sink
}

const SRC: &[u8] = b"01234";

#[test]
fn test_copy_add() {
    //01234 Copy 0123401234 Add-> A12XXXYZ34
    let answer = b"A12XXXYZ34";
    let merger = Merger::new(&add_run_patch()).unwrap().unwrap();
    let merger = merger.merge(&copy_patch()).unwrap().unwrap();
    let mut merged_patch = Vec::new();
    merger.finish().write(&mut merged_patch, None, None, None).unwrap();
    let output = apply_patch(&merged_patch, Some(SRC)).unwrap();
    println!("{}", std::str::from_utf8(&output).unwrap());
    assert_eq!(output, answer);
}

#[test]
fn test_add_copy() {
    //01234 Add -> A12XXXYZ34 Copy-> A12XXA12XX
    let answer = b"A12XXA12XX";
    let merger = Merger::new(&copy_patch()).unwrap().unwrap();
    let merger = merger.merge(&add_run_patch()).unwrap().unwrap();
    let mut merged_patch = Vec::new();
    merger.finish().write(&mut merged_patch, None, None, None).unwrap();
    let output = apply_patch(&merged_patch, Some(SRC)).unwrap();
    println!("{}", std::str::from_utf8(&output).unwrap());
    assert_eq!(output, answer);
}

#[test]
fn test_add_complex() {
    //01234 Add-> A12XXXYZ34 Compl YZZXZX12XX
    let answer = b"YZZXZX12XX";
    let merger = Merger::new(&complex_patch()).unwrap().unwrap();
    let merger = merger.merge(&add_run_patch()).unwrap().unwrap();
    let mut merged_patch = Vec::new();
    merger.finish().write(&mut merged_patch, None, None, None).unwrap();
    let output = apply_patch(&merged_patch, Some(SRC)).unwrap();
    println!("{}", std::str::from_utf8(&output).unwrap());
    assert_eq!(output, answer);
}

#[test]
fn test_complex_add() {
    //01234 Compl-> YZZ4Z41234 Add AZZXXXYZ4Z
    let answer = b"AZZXXXYZ4Z";
    let merger = Merger::new(&add_run_patch()).unwrap().unwrap();
    let merger = merger.merge(&complex_patch()).unwrap().unwrap();
    let mut merged_patch = Vec::new();
    merger.finish().write(&mut merged_patch, None, None, None).unwrap();
    let output = apply_patch(&merged_patch, Some(SRC)).unwrap();
    println!("{}", std::str::from_utf8(&output).unwrap());
    assert_eq!(output, answer);
}

#[test]
fn test_all_seq() {
    //01234 Add-> A12XXXYZ34 Compl YZZXZX12XX -> Copy YZZXZYZZXZ
    let answer = b"YZZXZYZZXZ";
    let merger = Merger::new(&copy_patch()).unwrap().unwrap();
    let merger = merger.merge(&complex_patch()).unwrap().unwrap();
    let summary = merger.merge(&add_run_patch()).unwrap().unwrap_err();
    let mut merged_patch = Vec::new();
    summary.write(&mut merged_patch, None, None, None).unwrap();
    //We don't need Src, since the last merge yielded SummaryPatch
    let output = apply_patch(&merged_patch, None).unwrap();
    println!("{}", std::str::from_utf8(&output).unwrap());
    assert_eq!(output, answer);
}

#[test]
fn test_kitchen_sink() {
    // "hello" -> "Hello! Hello! Hell..."
    let src = "hello".as_bytes().to_vec();
    let patch = vec![
        192, 1, 1, 0, 129, 72, // add 'H'
        192, 1, 0, 4, 4, 2, // copy_d "ello"
        192, 1, 2, 0, 130, 33, 32, // add "! "
        192, 1, 0, 6, 70, 0, // copy_o "Hello!"
        192, 1, 0, 5, 69, 12, // copy_o " Hell" from 6
        64, 1, 0, 3, 195, 46, // run "..."
    ];
    let out = apply_patch(&patch, Some(&src)).unwrap();
    assert_eq!(out, "Hello! Hello! Hell...".as_bytes());
}

#[test]
fn lib_test_kitchen_sink() {
    //"hello" -> "hello world!" -> "Hello! Hello! Hello. hello. hello..."
    let src = b"hello!";
    let mut sink = Vec::new();
    write_section(&mut sink, header(1, 5, true), &[copy_d(0, 5)]);
    write_section(&mut sink, header(3, 6, true), &[add(b" w"), copy_o(4, 1), add(b"rld")]);
    write_section(&mut sink, header(1, 1, false), &[copy_d(5, 1)]);
    let p1 = sink;
    let p1_answer = b"hello world!";
    let output = apply_patch(&p1, Some(src)).unwrap();
    println!("{}", std::str::from_utf8(&output).unwrap());
    assert_eq!(output, p1_answer); //ensure our instructions do what we think they are.

    let mut sink = Vec::new();
    write_section(&mut sink, header(4, 7, true), &[add(b"H"), copy_d(1, 4), copy_d(11, 1), copy_d(5, 1)]);
    write_section(&mut sink, header(4, 14, true), &[copy_o(0, 7), copy_o(7, 5), add(b"."), copy_o(13, 1)]);
    write_section(&mut sink, header(2, 7, true), &[add(b"h"), copy_o(15, 6)]);
    write_section(&mut sink, header(2, 8, false), &[copy_o(21, 5), Op::Run(Run { byte: b'.', len: 3 })]);
    let p2 = sink;
    let p2_answer = b"Hello! Hello! Hello. hello. hello...";
    let output = apply_patch(&p2, Some(p1_answer)).unwrap();
    println!("{}", std::str::from_utf8(&output).unwrap());
    assert_eq!(output, p2_answer); //ensure our instructions do what we think they are.

    let merger = Merger::new(&p2).unwrap().unwrap();
    let merger = merger.merge(&p1).unwrap().unwrap();
    let mut merged_patch = Vec::new();
    merger.finish().write(&mut merged_patch, None, None, None).unwrap();
    let answer = b"Hello! Hello! Hello. hello. hello...";
    let output = apply_patch(&merged_patch, Some(src)).unwrap();
    println!("{}", std::str::from_utf8(&output).unwrap());
    assert_eq!(output, answer);
}

#[test]
fn merging_patches_equals_applying_them_in_turn() {
    // applying add_run then complex by hand, against the merged patch
    let mid = apply_patch(&add_run_patch(), Some(SRC)).unwrap();
    let end = apply_patch(&complex_patch(), Some(&mid)).unwrap();
    let merger = Merger::new(&complex_patch()).unwrap().unwrap();
    let merger = merger.merge(&add_run_patch()).unwrap().unwrap();
    let mut merged = Vec::new();
    merger.finish().write(&mut merged, None, Some(Format::Segregated), None).unwrap();
    assert_eq!(apply_patch(&merged, Some(SRC)).unwrap(), end);
}

#[test]
fn summary_patch_without_copies_needs_no_merger() {
    let mut sink = Vec::new();
    write_section(&mut sink, header(2, 4, false), &[add(b"ab"), Op::Run(Run { byte: b'z', len: 2 })]);
    let summary = Merger::new(&sink).unwrap().unwrap_err();
    let ops = summary.take_ops();
    assert_eq!(ops, vec![add(b"ab"), Op::Run(Run { byte: b'z', len: 2 })]);
}

#[test]
fn merger_rejects_a_broken_patch() {
    assert!(Merger::new(&[0, 1]).is_err());
}

#[test]
fn extract_counts_each_copy_once() {
    let mut sink = Vec::new();
    write_section(&mut sink, header(3, 12, false), &[add(b"abc"), copy_d(0, 4), copy_o(0, 5)]);
    let (ops, stats) = smdiff::merger::extract_patch_instructions(&sink).unwrap();
    assert_eq!(ops.len(), 3);
    assert_eq!(ops[2].0, 7);
    assert_eq!((stats.add_cnt, stats.copy_d_cnt, stats.copy_o_cnt), (1, 1, 1));
    assert_eq!((stats.add_bytes, stats.copy_bytes, stats.output_size), (3, 9, 12));
}
