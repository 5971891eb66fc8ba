use smdiff::encoder::sequence::{
    calculate_max_cycles, calculate_min_cycles, calculate_rem_len, find_all_sequences, find_sequence_at_position, Sequence,
};

#[test]
fn test_basic_all_functionality() {
    let bytes = b"abcabcabcabc";
    let seqs = find_all_sequences(bytes, 3, 2);
    assert_eq!(seqs.len(), 1);
    assert_eq!(seqs[0], Sequence { start: 0, pat_len: 3, seq_len: 12 });
}

#[test]
fn test_no_sequences_all_found() {
    let bytes = b"abcdefg";
    let seqs = find_all_sequences(bytes, 3, 2);
    assert!(seqs.is_empty());
}

#[test]
fn test_all_boundary_conditions() {
    let bytes = b"abcabcabcabc";
    let seqs = find_all_sequences(bytes, 3, 1);
    // Expect sequences at start and possibly at middle if overlapping is not handled
    assert_eq!(seqs.len(), 1);
}

#[test]
fn test_overlapping_sequences() {
    let bytes = b"abcabcabcabc";
    let seqs = find_all_sequences(bytes, 3, 2);
    // Depending on whether the implementation allows for overlapping sequences
    assert_eq!(seqs.len(), 1);
}

#[test]
fn test_edge_case_small_input() {
    let bytes = b"ab";
    let seqs = find_all_sequences(bytes, 2, 0);
    assert!(seqs.is_empty());
}

#[test]
fn test_basic_functionality() {
    let bytes = b"abcabcabc";
    let seq = find_sequence_at_position(bytes, 0, 3, 2);
    assert_eq!(seq, Some(Sequence { start: 0, pat_len: 3, seq_len: 9 }));
}

#[test]
fn test_minimum_sequence_length_not_met() {
    let bytes = b"abcafcabc";
    let seq = find_sequence_at_position(bytes, 0, 3, 2); // Sequence length not met
    assert!(seq.is_none());
}

#[test]
fn test_calculate_min() {
    assert_eq!(calculate_min_cycles(3, 0), 1);
    assert_eq!(calculate_min_cycles(3, 2), 1);
    assert_eq!(calculate_min_cycles(3, 3), 2);
    assert_eq!(calculate_min_cycles(6, 3), 1);
}

#[test]
fn test_calculate_max() {
    assert_eq!(calculate_max_cycles(9, 3, 2), 3);
    assert_eq!(calculate_max_cycles(9, 3, 3), 3);
    assert_eq!(calculate_max_cycles(9, 3, 4), 3);
    assert_eq!(calculate_max_cycles(6, 3, 3), 2);
}

#[test]
fn test_calculate_rem_len() {
    assert_eq!(calculate_rem_len(3, 0), 0);
    assert_eq!(calculate_rem_len(3, 2), 2);
    assert_eq!(calculate_rem_len(3, 3), 0);
    assert_eq!(calculate_rem_len(6, 3), 3);
}

#[test]
fn sequence_with_a_partial_last_copy() {
    // "ab" three times, then "a": the remainder past the whole copies is kept
    let bytes = b"abababaxyz";
    let seq = find_sequence_at_position(bytes, 0, 2, 1);
    assert_eq!(seq, Some(Sequence { start: 0, pat_len: 2, seq_len: 7 }));
}

#[test]
fn scan_without_repeats_finds_nothing() {
    let bytes = b"abcdefghijklmnopqrstuvwxyz0123";
    assert!(find_all_sequences(bytes, 2, 0).is_empty());
}

#[test]
fn one_cycle_leaves_no_room_for_a_sequence() {
    // a single copy with its remainder filling what is left counts no cycle
    assert_eq!(calculate_max_cycles(4, 3, 1), 0);
    assert_eq!(calculate_max_cycles(5, 3, 1), 1);
}
