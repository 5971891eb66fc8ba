//! Small helpers of the byte-level encoders: what a copy address costs in the patch, and
//! the thinning of runs found inside Add bytes.
use vstd::prelude::*;
use crate::common::{diff_addresses_to_i64, u_varint_bytes, u_varint_encode_size, wrap_i64, zigzag_encode, zigzag_spec};

verus! {

/// The number of bytes a copy address costs: the length of the u-varint of the zigzag
/// encoded (wrapping) difference from the last address.
pub open spec fn addr_cost_spec(last_addr: u64, next_addr: u64) -> nat {
    u_varint_bytes(zigzag_spec(wrap_i64(next_addr - last_addr)) as nat).len()
}

/// How many bytes the address of a copy at `next_addr` takes after one at `last_addr`.
pub fn calc_addr_cost(last_addr: u64, next_addr: u64) -> (r: u8)
    ensures
        r == addr_cost_spec(last_addr, next_addr),
        1 <= r <= 10,
{
    let new_value = diff_addresses_to_i64(last_addr, next_addr);
    let to_u64 = zigzag_encode(new_value);
    u_varint_encode_size(to_u64) as u8
}

/// The runs kept from `runs[i..]`, the last kept run ending at `prev_end`: a run is kept
/// when it starts right where the last kept one ends or more than `min_distance` bytes
/// after it. None where a run starts before the last kept one ends, or a kept run's end
/// passes the address space.
pub open spec fn filtered(runs: Seq<(usize, u8, u8)>, min_distance: usize, i: int, prev_end: int) -> Option<Seq<(usize, u8, u8)>>
    decreases runs.len() - i,
{
    if i < 0 || i >= runs.len() {
        Some(Seq::empty())
    } else {
        let cur = runs[i];
        if cur.0 < prev_end {
            None
        } else {
            let gap = cur.0 - prev_end;
            if gap == 0 || gap > min_distance {
                if cur.0 + cur.1 > usize::MAX {
                    None
                } else {
                    match filtered(runs, min_distance, i + 1, cur.0 + cur.1) {
                        Some(rest) => Some(seq![cur] + rest),
                        None => None,
                    }
                }
            } else {
                filtered(runs, min_distance, i + 1, prev_end)
            }
        }
    }
}

/// The runs `filter_runs` keeps (the first always), None where it would fail.
pub open spec fn filter_runs_spec(runs: Seq<(usize, u8, u8)>, min_distance: usize) -> Option<Seq<(usize, u8, u8)>> {
    if runs.len() == 0 {
        Some(Seq::empty())
    } else if runs[0].0 + runs[0].1 > usize::MAX {
        None
    } else {
        match filtered(runs, min_distance, 1, runs[0].0 + runs[0].1) {
            Some(rest) => Some(seq![runs[0]] + rest),
            None => None,
        }
    }
}

/// Filters the runs (start, length, byte) so that the distance between kept runs is greater
/// than `min_distance`, or none (contiguous runs); the first run is always kept.
pub fn filter_runs(runs: Vec<(usize, u8, u8)>, min_distance: usize) -> (r: Vec<(usize, u8, u8)>)
    requires
        filter_runs_spec(runs@, min_distance) is Some,
    ensures
        filter_runs_spec(runs@, min_distance) == Some(r@),
{
    let mut filtered_runs: Vec<(usize, u8, u8)> = Vec::new();
    if runs.len() == 0 {
        proof {
            assert(filtered_runs@ =~= Seq::<(usize, u8, u8)>::empty());
        }
        return filtered_runs;
    }
    filtered_runs.push(runs[0]);
    let mut prev_end: usize = runs[0].0 + runs[0].1 as usize;
    let mut i: usize = 1;
    let ghost whole = filter_runs_spec(runs@, min_distance)->Some_0;
    while i < runs.len()
        invariant
            1 <= i <= runs@.len(),
            filtered_runs@.len() >= 1,
            prev_end as int == filtered_runs@.last().0 + filtered_runs@.last().1,
            filtered(runs@, min_distance, i as int, prev_end as int) is Some,
            filtered_runs@ + filtered(runs@, min_distance, i as int, prev_end as int)->Some_0 == whole,
        decreases runs@.len() - i,
    {
        let cur = runs[i];
        let gap = cur.0 - prev_end;
        if gap == 0 || gap > min_distance {
            let ghost before = filtered_runs@;
            filtered_runs.push(cur);
            proof {
                let rest = filtered(runs@, min_distance, i + 1, cur.0 + cur.1)->Some_0;
                assert(before + (seq![cur] + rest) =~= filtered_runs@ + rest);
            }
            prev_end = cur.0 + cur.1 as usize;
        }
        i = i + 1;
    }
    proof {
        assert(filtered_runs@ + Seq::<(usize, u8, u8)>::empty() =~= filtered_runs@);
    }
    filtered_runs
}

} // verus!
