use smdiff::common::SmdiffError;
use smdiff::decoder::apply_patch;

#[test]
fn test_src_apply() {
    // "hello" -> "Hello! Hello!"
    let src = "hello".as_bytes().to_vec();
    let patch = vec![
        0,   // 0b0_0_000_000
        4,   //num_ops uvarint
        13,  //output size uvarint
        129, //ADD, Size 1 0b10_000001
        72,  //'H'
        4,   //COPY_D, Size 4 0b00_000100
        2,   //addr ivar int +1
        130, //ADD, Size 2 0b10_000010
        33,  //'!'
        32,  //' '
        70,  //COPY_O, Size 6 0b01_000110
        0,   //addr ivar int 0
    ];
    let out = apply_patch(&patch, Some(&src)).unwrap();
    assert_eq!(out, "Hello! Hello!".as_bytes());
}

#[test]
fn test_complex_apply() {
    // "hello" -> "Hello! Hello!"
    let src = "hello".as_bytes().to_vec();
    let patch = vec![
        192, 1, 1, 0, 129, 72, // add 'H'
        192, 1, 0, 4, 4, 2, // copy_d 4 from 1
        192, 1, 2, 0, 130, 33, 32, // add "! "
        64, 1, 0, 6, 70, 0, // copy_o 6 from 0
    ];
    let out = apply_patch(&patch, Some(&src)).unwrap();
    assert_eq!(out, "Hello! Hello!".as_bytes());
}

#[test]
fn apply_dict_copy_without_source_is_missing_source() {
    let patch = vec![0, 1, 4, 4, 2];
    assert_eq!(apply_patch(&patch, None), Err(SmdiffError::MissingSource));
}

#[test]
fn apply_copy_past_output_is_unexpected_eof() {
    // a lone COPY_O of 6 bytes on an empty output
    let patch = vec![0, 1, 6, 70, 0];
    assert_eq!(apply_patch(&patch, None), Err(SmdiffError::UnexpectedEof));
}

#[test]
fn apply_truncated_patch_is_an_error() {
    let patch = vec![0, 1, 1, 129];
    assert!(apply_patch(&patch, None).is_err());
    assert!(apply_patch(&[], None).is_err());
}

#[test]
fn apply_wrong_output_size_is_invalid_data() {
    // header says 5 output bytes, the single ADD gives 1
    let patch = vec![0, 1, 5, 129, 72];
    assert_eq!(apply_patch(&patch, None), Err(SmdiffError::InvalidData));
}

#[test]
fn section_marked_lzma_is_refused() {
    // header byte: compression value 3 (bits 3-5), terminal; one Add of 1 byte
    let patch = vec![3u8 << 3, 1, 1, 129, 72];
    assert_eq!(apply_patch(&patch, None), Err(smdiff::common::SmdiffError::Compression));
}

#[test]
fn section_marked_unassigned_value_is_read_plain() {
    // header byte: compression value 5 (bits 3-5), terminal; one Add of 1 byte
    let patch = vec![5u8 << 3, 1, 1, 129, 72];
    assert_eq!(apply_patch(&patch, None), Ok(vec![72u8]));
}
