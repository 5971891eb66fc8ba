use smdiff::encoder::runs::{calc_addr_cost, filter_runs};

#[test]
fn addr_cost_counts_varint_bytes() {
    assert_eq!(calc_addr_cost(0, 0), 1);
    assert_eq!(calc_addr_cost(100, 163), 1);
    assert_eq!(calc_addr_cost(100, 164), 2);
    assert_eq!(calc_addr_cost(100, 36), 1);
    assert_eq!(calc_addr_cost(0, 1 << 20), 4);
}

#[test]
fn filter_runs_keeps_distant_and_contiguous_runs() {
    let runs = vec![(0usize, 5u8, b'a'), (5, 4, b'b'), (11, 4, b'c'), (20, 4, b'd')];
    assert_eq!(filter_runs(runs, 4), vec![(0usize, 5u8, b'a'), (5, 4, b'b'), (20, 4, b'd')]);
    assert_eq!(filter_runs(Vec::new(), 4), Vec::new());
}
