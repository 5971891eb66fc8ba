use smdiff::analysis::{calculate_inline_cost_v1, calculate_inline_cost_v2, calculate_seq_cost_v1, EncodingMethod, EncodingResult, Stats};
use smdiff::common::{
    diff_addresses_to_i64, diff_addresses_to_u64, read_i_varint, read_u_varint, size_routine, u_varint_encode_size,
    write_i_varint, write_u_varint, zigzag_decode, zigzag_encode, Size,
};

#[test]
fn test_ivarint() {
    let mut buffer = Vec::new();
    let values = [0, -1, 1, -2, 2, 1024, -1025, i64::MAX, i64::MIN];
    for &val in &values {
        buffer.clear();
        write_i_varint(&mut buffer, val).unwrap();
        let mut pos = 0usize;
        let decoded = read_i_varint(&buffer, &mut pos).unwrap();
        assert_eq!(val, decoded, "Failed encoding/decoding {}", val);
    }
}

#[test]
fn test_ivarint_vals() {
    let mut buffer = Vec::new();
    let values = [
        -64, 63, // min 3 byte match
        -8192, 8191, //min 4 byte match
        -1048576, 1048575, //min 5 byte match
        -134217728, 134217727, //min 6 byte match
        -123456789,
    ];
    for &val in &values {
        buffer.clear();
        let zigged = zigzag_encode(val);
        write_i_varint(&mut buffer, val).unwrap();
        println!("i64: {} buffer:{:?} zigzagged: {}", val, buffer, zigged);
        let mut pos = 0usize;
        let decoded = read_i_varint(&buffer, &mut pos).unwrap();
        assert_eq!(val, decoded, "Failed encoding/decoding {}", val);
    }
}

#[test]
fn test_add_i64_to_u64() {
    // Positive i64 addition
    assert_eq!(diff_addresses_to_u64(10, 5), 15);
    assert_eq!(diff_addresses_to_u64(0, i64::MAX), i64::MAX as u64);

    // Negative i64 addition
    assert_eq!(diff_addresses_to_u64(20, -5), 15);
    assert_eq!(diff_addresses_to_u64(10, -15), 0xFFFFFFFFFFFFFFFB); // Check wrapping behavior

    // Edge cases
    assert_eq!(diff_addresses_to_u64(0, -1), 0xFFFFFFFFFFFFFFFF);
    assert_eq!(diff_addresses_to_u64(u64::MAX, 1), 0); // Check overflow
}

#[test]
fn test_u64_to_i64_diff() {
    // Positive difference
    assert_eq!(diff_addresses_to_i64(5, 10), 5);

    // Negative difference
    assert_eq!(diff_addresses_to_i64(10, 5), -5);

    // Zero difference
    assert_eq!(diff_addresses_to_i64(20, 20), 0);
}

#[test]
fn zigzag_exact_values() {
    assert_eq!(zigzag_encode(0), 0);
    assert_eq!(zigzag_encode(-1), 1);
    assert_eq!(zigzag_encode(1), 2);
    assert_eq!(zigzag_encode(-2), 3);
    assert_eq!(zigzag_encode(i64::MAX), u64::MAX - 1);
    assert_eq!(zigzag_encode(i64::MIN), u64::MAX);
    assert_eq!(zigzag_decode(3), -2);
    assert_eq!(zigzag_decode(u64::MAX), i64::MIN);
}

#[test]
fn u_varint_exact_bytes_and_sizes() {
    let mut buffer = Vec::new();
    write_u_varint(&mut buffer, 300).unwrap();
    assert_eq!(buffer, vec![0xAC, 0x02]);
    assert_eq!(u_varint_encode_size(0), 1);
    assert_eq!(u_varint_encode_size(127), 1);
    assert_eq!(u_varint_encode_size(128), 2);
    assert_eq!(u_varint_encode_size(u64::MAX), 10);
    let mut pos = 0usize;
    assert_eq!(read_u_varint(&buffer, &mut pos).unwrap(), 300);
    assert_eq!(pos, 2);
}

#[test]
fn u_varint_truncated_and_overlong_are_errors() {
    let mut pos = 0usize;
    assert!(read_u_varint(&[0x80, 0x80], &mut pos).is_err());
    let overlong = [0xFFu8; 12];
    let mut pos = 0usize;
    assert!(read_u_varint(&overlong, &mut pos).is_err());
}

#[test]
fn size_routine_boundaries() {
    assert_eq!(size_routine(1), Size::Done(1));
    assert_eq!(size_routine(62), Size::Done(62));
    assert_eq!(size_routine(63), Size::U8And62);
    assert_eq!(size_routine(0), Size::U16);
    assert_eq!(size_routine(64), Size::U16);
}

#[test]
fn analysis_costs_and_counts() {
    assert_eq!(calculate_inline_cost_v2(0, 10), 11);
    assert_eq!(calculate_inline_cost_v2(3, 10), 4);
    assert_eq!(calculate_inline_cost_v2(2, 63), 4);
    assert_eq!(calculate_inline_cost_v2(0, 400), 403);
    assert_eq!(calculate_seq_cost_v1(2, 40), 6);
    assert_eq!(calculate_seq_cost_v1(0, 70), 74);
    assert_eq!(calculate_inline_cost_v1(4, 40), 7);
    assert_eq!(calculate_inline_cost_v1(0, 64), 67);
    let r = EncodingResult::new(1, 10, 2, 5, 5, 6, 5);
    assert_eq!(r.best_method, EncodingMethod::AddInline);
    assert_eq!(r.min_cost, 5);
    assert_eq!(r.best_method.name(), "AddInline");
    let r = EncodingResult::new(1, 10, 2, 4, 4, 6, 5);
    assert_eq!(r.best_method, EncodingMethod::CopySeq);
    let mut st = Stats::new();
    st.add(3);
    st.run(2);
    assert!(!st.has_copy());
    st.copy_s(4);
    st.copy_t(1);
    assert!(st.has_copy());
    assert_eq!(st.output_size, 10);
    assert_eq!(st.copy_bytes, 5);
    assert_eq!((st.add_cnt, st.run_cnt, st.copy_s_cnt, st.copy_t_cnt), (1, 1, 1, 1));
}
