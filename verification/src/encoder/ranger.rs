//! Linear mapping of a small input range (compression levels) onto a setting's range.
use vstd::prelude::*;
use core::ops::{Range, RangeInclusive};

verus! {

/// `RangeInclusive::start`: the lower bound the range was made with.
pub assume_specification<Idx>[ RangeInclusive::<Idx>::start ](r: &RangeInclusive<Idx>) -> (s: &Idx)
    ensures
        *s == r@.start,
;

/// `RangeInclusive::end`: the upper bound the range was made with.
pub assume_specification<Idx>[ RangeInclusive::<Idx>::end ](r: &RangeInclusive<Idx>) -> (e: &Idx)
    ensures
        *e == r@.end,
;

/// This just simplifies mapping a 0..9 comp_level to various ranges for various settings.
pub struct Ranger {
    pub input_start: usize,
    pub input_end: usize,
    pub output_start: usize,
    pub output_end: usize,
    pub input_span: usize,
    pub output_span: usize,
    pub is_inverted: bool,
}

/// The value `v` maps to: `v` clamped into [in_start, in_end), placed at the same fraction
/// (rounded down) of the way from the output start to the output end.
pub open spec fn ranger_map_spec(in_start: int, in_end: int, out_start: int, out_end: int, v: int) -> int {
    let input = if v < in_start { in_start } else if v > in_end - 1 { in_end - 1 } else { v };
    let span = if out_start <= out_end { out_end - out_start } else { out_start - out_end };
    let step = (span * (input - in_start)) / (in_end - in_start - 1);
    if out_start <= out_end {
        out_start + step
    } else {
        out_start - step
    }
}

impl Ranger {
    /// The mapping can be computed without overflow.
    pub open spec fn wf(&self) -> bool {
        &&& self.input_end >= self.input_start + 2
        &&& self.input_span == self.input_end - self.input_start - 1
        &&& self.is_inverted == (self.output_start > self.output_end)
        &&& self.output_span == (if self.is_inverted { self.output_start - self.output_end } else { self.output_end - self.output_start })
        &&& self.output_span * self.input_span <= usize::MAX
        &&& self.output_span + 2 * (if self.is_inverted { self.output_end } else { self.output_start }) <= usize::MAX
    }

    pub fn new(input_range: Range<usize>, output_range: RangeInclusive<usize>) -> (r: Self)
        requires
            input_range.end >= input_range.start + 2,
            (output_range@.end - output_range@.start) * (input_range.end - input_range.start) <= usize::MAX,
            (output_range@.start - output_range@.end) * (input_range.end - input_range.start) <= usize::MAX,
            output_range@.start + output_range@.end <= usize::MAX / 2,
        ensures
            r.wf(),
            r.input_start == input_range.start,
            r.input_end == input_range.end,
            r.output_start == output_range@.start,
            r.output_end == output_range@.end,
    {
        let out_start = *output_range.start();
        let out_end = *output_range.end();
        let input_span = input_range.end - input_range.start - 1;
        let is_inverted = out_start > out_end;
        let output_span = if is_inverted { out_start - out_end } else { out_end - out_start };
        proof {
            assert(output_span * input_span <= output_span * (input_range.end - input_range.start)) by (nonlinear_arith)
                requires input_span <= input_range.end - input_range.start;
        }
        Ranger {
            input_start: input_range.start,
            input_end: input_range.end,
            output_start: out_start,
            output_end: out_end,
            input_span,
            output_span,
            is_inverted,
        }
    }

    pub fn map(&self, input_value: usize) -> (r: usize)
        requires
            self.wf(),
        ensures
            r == ranger_map_spec(self.input_start as int, self.input_end as int, self.output_start as int, self.output_end as int, input_value as int),
            (self.output_start <= r <= self.output_end) || (self.output_end <= r <= self.output_start),
    {
        let input_value = if input_value < self.input_start {
            self.input_start
        } else if input_value > self.input_end - 1 {
            self.input_end - 1
        } else {
            input_value
        };
        let b = if self.output_start < self.output_end { self.output_start } else { self.output_end };
        let m = input_value - self.input_start;
        proof {
            assert(self.output_span * m <= self.output_span * self.input_span) by (nonlinear_arith)
                requires m <= self.input_span;
            assert((self.output_span * m) / (self.input_span as int) <= self.output_span) by (nonlinear_arith)
                requires m <= self.input_span, self.input_span > 0;
        }
        let output = b + (self.output_span * m) / self.input_span;
        if self.is_inverted {
            self.output_span + self.output_end - output + self.output_end
        } else {
            output
        }
    }
}

} // verus!
