//! Merges SMDIFF patches into one summary patch. A patch is first flattened into
//! its operations, each tagged with where its output starts ("sparse" operations);
//! the Copy-from-dictionary operations of the later patch are then replaced by the
//! operations of the earlier patch that produce those bytes.
pub mod transcoder;
pub mod laws;
use vstd::prelude::*;
use crate::common::{models, op_len, op_model, op_oal, Add, AddOp, CopySrc, Op, OpModel, Run};
use crate::reader::{clone_op, slice_to_vec};
use crate::decoder::{decoded_section_spec, lemma_decoded_section_bounds, SectionReader};
use crate::common::{Format, SmdiffError, MAX_WIN_SIZE};
use crate::decoder::{written_bytes, written_ops};
use crate::encoder::config::SecondaryCompression;
use crate::encoder::section::{all_emittable, compression_fails, encoded_as, sec_comp_buildable, write_sections};
use crate::writer::{clamp_section_size, op_writable, ops_bytes};

verus! {

/// An operation with the output position at which its bytes start.
pub type SparseOp = (u64, Op<Add>);

/// The model of a sparse operation.
pub open spec fn sparse_model(s: SparseOp) -> (u64, OpModel) {
    (s.0, op_model(s.1))
}

/// The models of a sequence of sparse operations.
pub open spec fn sparse_models(s: Seq<SparseOp>) -> Seq<(u64, OpModel)> {
    s.map_values(|x: SparseOp| sparse_model(x))
}

/// Where the output of a sparse operation ends (exclusive).
pub open spec fn sop_end(s: (u64, OpModel)) -> int {
    s.0 + op_oal(s.1)
}

/// The sparse operation produces the output byte at `o`.
pub open spec fn covers(s: (u64, OpModel), o: int) -> bool {
    s.0 <= o < sop_end(s)
}

/// A Copy whose last address still fits a u64.
pub open spec fn copy_fits(op: OpModel) -> bool {
    op matches OpModel::Copy(c) ==> c.addr + c.len <= u64::MAX
}

/// Sparse operations laid out one after the other in the output (each starts where the
/// previous one ends), ending inside the u64 range, with copies whose ranges fit a u64.
pub open spec fn sparse_ok(s: Seq<(u64, OpModel)>) -> bool {
    &&& sparse_adjacent(s)
    &&& sparse_ordered(s)
    &&& sparse_bounded(s)
}

/// Each sparse operation starts where the previous one ends.
pub open spec fn sparse_adjacent(s: Seq<(u64, OpModel)>) -> bool {
    forall|i: int| 0 <= i < s.len() - 1 ==> sop_end(#[trigger] s[i]) == s[i + 1].0
}

/// No sparse operation starts before an earlier one ends.
pub open spec fn sparse_ordered(s: Seq<(u64, OpModel)>) -> bool {
    forall|i: int, j: int| 0 <= i < j < s.len() ==> sop_end(s[i]) <= s[j].0
}

/// Every sparse operation ends inside the u64 range, and so does every copied range.
pub open spec fn sparse_bounded(s: Seq<(u64, OpModel)>) -> bool {
    forall|i: int| 0 <= i < s.len() ==> sop_end(#[trigger] s[i]) <= u64::MAX && copy_fits(s[i].1)
}

/// An operation without its first `amt` output bytes.
pub open spec fn skip_model(op: OpModel, amt: nat) -> OpModel {
    match op {
        OpModel::Run(r) => OpModel::Run(Run { byte: r.byte, len: (r.len - amt) as u8 }),
        OpModel::Copy(c) => OpModel::Copy(crate::common::Copy { src: c.src, addr: (c.addr + amt) as u64, len: (c.len - amt) as u16 }),
        OpModel::Add(b) => OpModel::Add(b.subrange(amt as int, b.len() as int)),
    }
}

/// An operation without its last `amt` output bytes.
pub open spec fn trunc_model(op: OpModel, amt: nat) -> OpModel {
    match op {
        OpModel::Run(r) => OpModel::Run(Run { byte: r.byte, len: (r.len - amt) as u8 }),
        OpModel::Copy(c) => OpModel::Copy(crate::common::Copy { src: c.src, addr: c.addr, len: (c.len - amt) as u16 }),
        OpModel::Add(b) => OpModel::Add(b.subrange(0, b.len() - amt)),
    }
}

/// `amt` bytes can be skipped: the operation is that long, and a Copy's address can move.
pub open spec fn can_skip(op: OpModel, amt: nat) -> bool {
    &&& amt <= op_len(op)
    &&& op matches OpModel::Copy(c) ==> c.addr + amt <= u64::MAX
}

/// Operations that can be shortened at either end.
pub trait MergeOp: Sized {
    /// The operation this value stands for.
    spec fn merge_model(&self) -> OpModel;

    /// Shorten the 'front' of the instruction
    fn skip(&mut self, amt: u32)
        requires
            can_skip(old(self).merge_model(), amt as nat),
        ensures
            final(self).merge_model() == skip_model(old(self).merge_model(), amt as nat),
    ;

    /// Truncate off the 'back' of the instruction
    fn trunc(&mut self, amt: u32)
        requires
            amt <= op_len(old(self).merge_model()),
        ensures
            final(self).merge_model() == trunc_model(old(self).merge_model(), amt as nat),
    ;
}

impl MergeOp for Run {
    open spec fn merge_model(&self) -> OpModel {
        OpModel::Run(*self)
    }

    fn skip(&mut self, amt: u32) {
        self.len = self.len - amt as u8;
    }

    fn trunc(&mut self, amt: u32) {
        self.len = self.len - amt as u8;
    }
}

impl MergeOp for crate::common::Copy {
    open spec fn merge_model(&self) -> OpModel {
        OpModel::Copy(*self)
    }

    fn skip(&mut self, amt: u32) {
        self.addr = self.addr + amt as u64;
        self.len = self.len - amt as u16;
    }

    fn trunc(&mut self, amt: u32) {
        self.len = self.len - amt as u16;
    }
}

impl MergeOp for Add {
    open spec fn merge_model(&self) -> OpModel {
        OpModel::Add(self.bytes@)
    }

    fn skip(&mut self, amt: u32) {
        self.bytes = self.bytes.split_off(amt as usize);
    }

    fn trunc(&mut self, amt: u32) {
        let keep = self.bytes.len() - amt as usize;
        self.bytes.truncate(keep);
    }
}

impl MergeOp for Op<Add> {
    open spec fn merge_model(&self) -> OpModel {
        op_model(*self)
    }

    fn skip(&mut self, amt: u32) {
        match self {
            Op::Run(run) => run.skip(amt),
            Op::Copy(copy) => copy.skip(amt),
            Op::Add(add) => add.skip(amt),
        }
    }

    fn trunc(&mut self, amt: u32) {
        match self {
            Op::Run(run) => run.trunc(amt),
            Op::Copy(copy) => copy.trunc(amt),
            Op::Add(add) => add.trunc(amt),
        }
    }
}

/// Finds the index of the op that controls the given output position.
/// # Arguments
/// * `ops` - The list of ops to search.
/// * `o_pos` - The output position to find the controlling instruction for.
/// # Returns
/// The index of the controlling instruction, or None if no such instruction exists.
pub fn find_controlling_op(ops: &[SparseOp], o_pos: u64) -> (r: Option<usize>)
    requires
        sparse_adjacent(sparse_models(ops@)),
        sparse_ordered(sparse_models(ops@)),
        forall|i: int| 0 <= i < ops@.len() ==> sop_end(#[trigger] sparse_models(ops@)[i]) <= u64::MAX,
    ensures
        match r {
            Some(i) => i < ops@.len() && covers(sparse_models(ops@)[i as int], o_pos as int),
            None => forall|k: int| 0 <= k < ops@.len() ==> !covers(#[trigger] sparse_models(ops@)[k], o_pos as int),
        },
{
    let ghost s = sparse_models(ops@);
    let mut lo: usize = 0;
    let mut hi: usize = ops.len();
    while lo < hi
        invariant
            0 <= lo <= hi <= ops@.len(),
            s == sparse_models(ops@),
            sparse_ordered(s),
            forall|i: int| 0 <= i < s.len() ==> sop_end(#[trigger] s[i]) <= u64::MAX,
            forall|k: int| 0 <= k < lo ==> sop_end(#[trigger] s[k]) <= o_pos,
            forall|k: int| hi <= k < ops@.len() ==> #[trigger] s[k].0 > o_pos,
        decreases hi - lo,
    {
        let mid = lo + (hi - lo) / 2;
        let start = ops[mid].0;
        proof {
            assert(s[mid as int] == sparse_model(ops@[mid as int]));
            assert(sop_end(s[mid as int]) <= u64::MAX);
        }
        let end = start + ops[mid].1.oal() as u64;
        if start <= o_pos && o_pos < end {
            return Some(mid);
        } else if start > o_pos {
            proof {
                assert forall|k: int| mid <= k < ops@.len() implies #[trigger] s[k].0 > o_pos by {
                    if k > mid {
                        assert(sop_end(s[mid as int]) <= s[k].0);
                    }
                }
            }
            hi = mid;
        } else {
            proof {
                assert forall|k: int| 0 <= k < mid + 1 implies sop_end(#[trigger] s[k]) <= o_pos by {
                    if k < mid {
                        assert(sop_end(s[k]) <= s[mid as int].0);
                    }
                }
            }
            lo = mid + 1;
        }
    }
    None
}

/// A sparse operation clipped to the output range [start, end_pos).
#[verifier::opaque]
pub open spec fn clip(x: (u64, OpModel), start: int, end_pos: int) -> (u64, OpModel) {
    let skipped: (u64, OpModel) = if start > x.0 {
        (start as u64, skip_model(x.1, (start - x.0) as nat))
    } else {
        x
    };
    if end_pos < sop_end(x) {
        (skipped.0, trunc_model(skipped.1, (sop_end(x) - end_pos) as nat))
    } else {
        skipped
    }
}

/// The clipped operations from index `k` on, up to the first that reaches `end_pos`;
/// None if none does.
#[verifier::opaque]
pub open spec fn slice_from(s: Seq<(u64, OpModel)>, k: int, start: int, end_pos: int) -> Option<Seq<(u64, OpModel)>>
    decreases s.len() - k,
{
    if k < 0 || k >= s.len() {
        None
    } else if sop_end(s[k]) >= end_pos {
        Some(seq![clip(s[k], start, end_pos)])
    } else {
        opt_prepend(seq![clip(s[k], start, end_pos)], slice_from(s, k + 1, start, end_pos))
    }
}

/// The operations that exactly cover the output range [start, start + len), clipped;
/// None if no operation holds `start` or the operations end before the range does.
pub open spec fn exact_slice_spec(s: Seq<(u64, OpModel)>, start: int, len: int) -> Option<Seq<(u64, OpModel)>> {
    if exists|i: int| 0 <= i < s.len() && covers(s[i], start) {
        slice_from(s, choose|i: int| 0 <= i < s.len() && covers(s[i], start), start, start + len)
    } else {
        None
    }
}

/// `r` with `pre` in front, if there is an `r`.
pub open spec fn opt_prepend(pre: Seq<(u64, OpModel)>, r: Option<Seq<(u64, OpModel)>>) -> Option<Seq<(u64, OpModel)>> {
    match r {
        None => None,
        Some(x) => Some(pre + x),
    }
}

proof fn lemma_opt_prepend_assoc(a: Seq<(u64, OpModel)>, b: Seq<(u64, OpModel)>, r: Option<Seq<(u64, OpModel)>>)
    ensures
        opt_prepend(a, opt_prepend(b, r)) == opt_prepend(a + b, r),
{
    if let Some(x) = r {
        assert(a + (b + x) =~= (a + b) + x);
    }
}

/// The slice from `i0` is `pre` followed by the slice from `k`.
#[verifier::opaque]
pub open spec fn slice_progress(s: Seq<(u64, OpModel)>, i0: int, k: int, start: int, end_pos: int, pre: Seq<(u64, OpModel)>) -> bool {
    slice_from(s, i0, start, end_pos) == opt_prepend(pre, slice_from(s, k, start, end_pos))
}

proof fn lemma_progress_init(s: Seq<(u64, OpModel)>, i0: int, start: int, end_pos: int)
    ensures
        slice_progress(s, i0, i0, start, end_pos, Seq::empty()),
{
    reveal(slice_progress);
    if let Some(x) = slice_from(s, i0, start, end_pos) {
        assert(Seq::<(u64, OpModel)>::empty() + x =~= x);
    }
}

proof fn lemma_progress_step(s: Seq<(u64, OpModel)>, i0: int, k: int, start: int, end_pos: int, pre: Seq<(u64, OpModel)>)
    requires
        0 <= k < s.len(),
        sop_end(s[k]) < end_pos,
        slice_progress(s, i0, k, start, end_pos, pre),
    ensures
        slice_progress(s, i0, k + 1, start, end_pos, pre + seq![clip(s[k], start, end_pos)]),
{
    reveal(slice_progress);
    reveal(slice_from);
    lemma_opt_prepend_assoc(pre, seq![clip(s[k], start, end_pos)], slice_from(s, k + 1, start, end_pos));
}

proof fn lemma_progress_last(s: Seq<(u64, OpModel)>, i0: int, k: int, start: int, end_pos: int, pre: Seq<(u64, OpModel)>)
    requires
        0 <= k < s.len(),
        sop_end(s[k]) >= end_pos,
        slice_progress(s, i0, k, start, end_pos, pre),
    ensures
        slice_from(s, i0, start, end_pos) == Some(pre + seq![clip(s[k], start, end_pos)]),
{
    reveal(slice_progress);
    reveal(slice_from);
}

proof fn lemma_progress_end(s: Seq<(u64, OpModel)>, i0: int, k: int, start: int, end_pos: int, pre: Seq<(u64, OpModel)>)
    requires
        k >= s.len(),
        slice_progress(s, i0, k, start, end_pos, pre),
    ensures
        slice_from(s, i0, start, end_pos) is None,
{
    reveal(slice_progress);
    reveal(slice_from);
}

/// A copy of a sparse operation clipped to the output range [start, end_pos).
fn clip_op(x: &SparseOp, start: u64, end_pos: u64) -> (r: SparseOp)
    requires
        sop_end(sparse_model(*x)) <= u64::MAX,
        copy_fits(op_model(x.1)),
        x.0 <= end_pos,
        start <= end_pos,
        start < sop_end(sparse_model(*x)),
    ensures
        sparse_model(r) == clip(sparse_model(*x), start as int, end_pos as int),
{
    let o_start = x.0;
    let inst_len = x.1.oal();
    let cur_inst_end = o_start + inst_len as u64;
    let mut cur_inst = clone_op(&x.1);
    proof {
        reveal(clip);
        assert(op_oal(op_model(x.1)) <= op_len(op_model(x.1))) by (nonlinear_arith)
            requires op_oal(op_model(x.1)) == op_len(op_model(x.1)) % 0x10000;
    }
    let op_start = if start > o_start {
        let skip = start - o_start;
        cur_inst.skip(skip as u32);
        start
    } else {
        o_start
    };
    if end_pos < cur_inst_end {
        let trunc = cur_inst_end - end_pos;
        cur_inst.trunc(trunc as u32);
    }
    (op_start, cur_inst)
}

/// Returns a cloned and clipped subslice of ops that exactly covers the requested output range.
/// # Arguments
/// * `ops` - The list of ops to extract from.
/// * `start` - The output position (output byte offset) to start the slice at.
/// * `len` - The length of the slice in output bytes.
/// # Returns
/// A vector containing the cloned and clipped ops that exactly cover the requested output range.
/// If the output range is not covered by the ops, None is returned.
///
/// This does not check that the ops are sequential: it requires it.
pub fn get_exact_slice(ops: &[SparseOp], start: u64, len: u32) -> (r: Option<Vec<SparseOp>>)
    requires
        sparse_ok(sparse_models(ops@)),
        start + len <= u64::MAX,
    ensures
        match exact_slice_spec(sparse_models(ops@), start as int, len as int) {
            None => r is None,
            Some(v) => r matches Some(w) && sparse_models(w@) == v,
        },
{
    let ghost s = sparse_models(ops@);
    let start_idx = match find_controlling_op(ops, start) {
        Some(i) => i,
        None => return None,
    };
    proof {
        assert forall|i: int| 0 <= i < s.len() && covers(s[i], start as int) implies i == start_idx by {
            if i < start_idx {
                assert(sop_end(s[i]) <= s[start_idx as int].0);
            } else if i > start_idx {
                assert(sop_end(s[start_idx as int]) <= s[i].0);
            }
        }
    }
    let end_pos = start + len as u64;
    let mut slice: Vec<SparseOp> = Vec::new();
    let mut k = start_idx;
    proof {
        assert(exact_slice_spec(s, start as int, len as int) == slice_from(s, start_idx as int, start as int, end_pos as int));
        lemma_progress_init(s, start_idx as int, start as int, end_pos as int);
        assert(sparse_models(slice@) =~= Seq::<(u64, OpModel)>::empty());
    }
    while k < ops.len()
        invariant
            start_idx <= k <= ops@.len(),
            s == sparse_models(ops@),
            sparse_adjacent(s),
            sparse_bounded(s),
            end_pos == start + len,
            covers(s[start_idx as int], start as int),
            k > start_idx ==> start < sop_end(s[k - 1]) < end_pos,
            slice_progress(s, start_idx as int, k as int, start as int, end_pos as int, sparse_models(slice@)),
            exact_slice_spec(s, start as int, len as int) == slice_from(s, start_idx as int, start as int, end_pos as int),
        decreases ops@.len() - k,
    {
        let ghost x = s[k as int];
        proof {
            assert(x == sparse_model(ops@[k as int]));
            assert(sop_end(x) <= u64::MAX && copy_fits(x.1));
            if k > start_idx {
                assert(sop_end(s[k - 1]) == x.0);
            }
        }
        let o_start = ops[k].0;
        let cur_inst_end = o_start + ops[k].1.oal() as u64;
        let (op_start, cur_inst) = clip_op(&ops[k], start, end_pos);
        let ghost pre = sparse_models(slice@);
        slice.push((op_start, cur_inst));
        proof {
            assert(sparse_models(slice@) =~= pre + seq![clip(x, start as int, end_pos as int)]);
        }
        if cur_inst_end >= end_pos {
            proof {
                lemma_progress_last(s, start_idx as int, k as int, start as int, end_pos as int, pre);
            }
            return Some(slice);
        }
        proof {
            lemma_progress_step(s, start_idx as int, k as int, start as int, end_pos as int, pre);
        }
        k = k + 1;
    }
    proof {
        lemma_progress_end(s, start_idx as int, k as int, start as int, end_pos as int, sparse_models(slice@));
    }
    None
}

//Should maybe move this to Reader?
/// Stats about the patch file.
#[derive(Copy, Clone, Debug, PartialEq, Eq, Structural)]
pub struct Stats {
    pub add_bytes: usize,
    pub run_bytes: usize,
    pub copy_bytes: usize,
    pub add_cnt: usize,
    pub run_cnt: usize,
    pub copy_d_cnt: usize,
    pub copy_o_cnt: usize,
    pub output_size: usize,
}

impl Default for Stats {
    fn default() -> (r: Self)
        ensures
            r == Stats::zero(),
    {
        Stats::new()
    }
}

impl Stats {
    /// All counters at zero.
    pub open spec fn zero() -> Stats {
        Stats { add_bytes: 0, run_bytes: 0, copy_bytes: 0, add_cnt: 0, run_cnt: 0, copy_d_cnt: 0, copy_o_cnt: 0, output_size: 0 }
    }

    pub fn new() -> (r: Self)
        ensures
            r == Stats::zero(),
    {
        Stats { add_bytes: 0, run_bytes: 0, copy_bytes: 0, add_cnt: 0, run_cnt: 0, copy_d_cnt: 0, copy_o_cnt: 0, output_size: 0 }
    }

    pub fn add(&mut self, len: usize)
        requires
            old(self).add_bytes + len <= usize::MAX,
            old(self).add_cnt < usize::MAX,
            old(self).output_size + len <= usize::MAX,
        ensures
            *final(self) == (Stats {
                add_bytes: (old(self).add_bytes + len) as usize,
                add_cnt: (old(self).add_cnt + 1) as usize,
                output_size: (old(self).output_size + len) as usize,
                ..*old(self)
            }),
    {
        self.add_bytes += len;
        self.add_cnt += 1;
        self.output_size += len;
    }

    pub fn run(&mut self, len: usize)
        requires
            old(self).run_bytes + len <= usize::MAX,
            old(self).run_cnt < usize::MAX,
            old(self).output_size + len <= usize::MAX,
        ensures
            *final(self) == (Stats {
                run_bytes: (old(self).run_bytes + len) as usize,
                run_cnt: (old(self).run_cnt + 1) as usize,
                output_size: (old(self).output_size + len) as usize,
                ..*old(self)
            }),
    {
        self.run_bytes += len;
        self.run_cnt += 1;
        self.output_size += len;
    }

    pub fn copy_d(&mut self, len: usize)
        requires
            old(self).copy_bytes + len <= usize::MAX,
            old(self).copy_d_cnt < usize::MAX,
            old(self).output_size + len <= usize::MAX,
        ensures
            *final(self) == (Stats {
                copy_bytes: (old(self).copy_bytes + len) as usize,
                copy_d_cnt: (old(self).copy_d_cnt + 1) as usize,
                output_size: (old(self).output_size + len) as usize,
                ..*old(self)
            }),
    {
        self.copy_bytes += len;
        self.copy_d_cnt += 1;
        self.output_size += len;
    }

    pub fn copy_o(&mut self, len: usize)
        requires
            old(self).copy_bytes + len <= usize::MAX,
            old(self).copy_o_cnt < usize::MAX,
            old(self).output_size + len <= usize::MAX,
        ensures
            *final(self) == (Stats {
                copy_bytes: (old(self).copy_bytes + len) as usize,
                copy_o_cnt: (old(self).copy_o_cnt + 1) as usize,
                output_size: (old(self).output_size + len) as usize,
                ..*old(self)
            }),
    {
        self.copy_bytes += len;
        self.copy_o_cnt += 1;
        self.output_size += len;
    }

    pub fn has_copy(&self) -> (r: bool)
        ensures
            r == (self.copy_bytes > 0),
    {
        self.copy_bytes > 0
    }
}


/// The counters after one more Add of `len` bytes; None where one would overflow.
pub open spec fn add_step(st: Stats, len: int) -> Option<Stats> {
    if st.add_bytes + len <= usize::MAX && st.add_cnt < usize::MAX && st.output_size + len <= usize::MAX {
        Some(Stats { add_bytes: (st.add_bytes + len) as usize, add_cnt: (st.add_cnt + 1) as usize, output_size: (st.output_size + len) as usize, ..st })
    } else {
        None
    }
}

/// The counters after one more Run of `len` bytes; None where one would overflow.
pub open spec fn run_step(st: Stats, len: int) -> Option<Stats> {
    if st.run_bytes + len <= usize::MAX && st.run_cnt < usize::MAX && st.output_size + len <= usize::MAX {
        Some(Stats { run_bytes: (st.run_bytes + len) as usize, run_cnt: (st.run_cnt + 1) as usize, output_size: (st.output_size + len) as usize, ..st })
    } else {
        None
    }
}

/// The counters after one more dictionary Copy of `len` bytes; None where one would overflow.
pub open spec fn copy_d_step(st: Stats, len: int) -> Option<Stats> {
    if st.copy_bytes + len <= usize::MAX && st.copy_d_cnt < usize::MAX && st.output_size + len <= usize::MAX {
        Some(Stats { copy_bytes: (st.copy_bytes + len) as usize, copy_d_cnt: (st.copy_d_cnt + 1) as usize, output_size: (st.output_size + len) as usize, ..st })
    } else {
        None
    }
}

/// The counters after one more output Copy of `len` bytes; None where one would overflow.
pub open spec fn copy_o_step(st: Stats, len: int) -> Option<Stats> {
    if st.copy_bytes + len <= usize::MAX && st.copy_o_cnt < usize::MAX && st.output_size + len <= usize::MAX {
        Some(Stats { copy_bytes: (st.copy_bytes + len) as usize, copy_o_cnt: (st.copy_o_cnt + 1) as usize, output_size: (st.output_size + len) as usize, ..st })
    } else {
        None
    }
}

/// The counters after one more operation: an Add, a Run, or a Copy counted by its source.
pub open spec fn stats_step(st: Stats, op: OpModel) -> Option<Stats> {
    let len = op_oal(op) as int;
    match op {
        OpModel::Run(_) => run_step(st, len),
        OpModel::Add(_) => add_step(st, len),
        OpModel::Copy(c) => match c.src {
            CopySrc::Dict => copy_d_step(st, len),
            CopySrc::Output => copy_o_step(st, len),
        },
    }
}

/// The operations tagged with their output positions (from 0), the counters, and the
/// position after the last one; None where a position, a counter or a copied range overflows.
pub open spec fn extract_spec(ops: Seq<OpModel>) -> Option<(Seq<(u64, OpModel)>, Stats, u64)>
    decreases ops.len(),
{
    if ops.len() == 0 {
        Some((Seq::empty(), Stats::zero(), 0u64))
    } else {
        match extract_spec(ops.drop_last()) {
            None => None,
            Some((sp, st, pos)) => {
                let op = ops.last();
                if !copy_fits(op) || pos + op_oal(op) > u64::MAX {
                    None
                } else {
                    match stats_step(st, op) {
                        None => None,
                        Some(st2) => Some((sp.push((pos, op)), st2, (pos + op_oal(op)) as u64)),
                    }
                }
            },
        }
    }
}

/// All operations of the patch read at `p`, section after section, secondary compression undone.
pub open spec fn patch_ops_spec(s: Seq<u8>, p: int) -> Result<Seq<OpModel>, SmdiffError>
    decreases s.len() - p,
{
    match decoded_section_spec(s, p) {
        Err(e) => Err(e),
        Ok((h, ops, q)) => if !h.more_sections {
            Ok(ops)
        } else {
            proof {
                lemma_decoded_section_bounds(s, p);
            }
            match patch_ops_spec(s, q) {
                Err(e) => Err(e),
                Ok(rest) => Ok(ops + rest),
            }
        },
    }
}

/// `ops` in front of `r`, if `r` is Ok.
pub open spec fn ops_prepend(pre: Seq<OpModel>, r: Result<Seq<OpModel>, SmdiffError>) -> Result<Seq<OpModel>, SmdiffError> {
    match r {
        Err(e) => Err(e),
        Ok(x) => Ok(pre + x),
    }
}

/// Reads every operation of a patch (undoing secondary compression), in order.
fn read_patch_ops(patch: &[u8]) -> (r: Result<Vec<Op<Add>>, SmdiffError>)
    ensures
        match patch_ops_spec(patch@, 0) {
            Ok(ops) => r matches Ok(v) && models(v@) == ops,
            Err(e) => r == Err::<Vec<Op<Add>>, SmdiffError>(e),
        },
{
    let ghost s = patch@;
    let mut all: Vec<Op<Add>> = Vec::new();
    let mut reader = SectionReader::new(slice_to_vec(patch, 0, patch.len()));
    proof {
        assert(patch@.subrange(0, patch@.len() as int) =~= patch@);
        assert(models(all@) =~= Seq::<OpModel>::empty());
        assert(Seq::<OpModel>::empty() + patch_ops_spec(s, 0)->Ok_0 =~= patch_ops_spec(s, 0)->Ok_0);
    }
    loop
        invariant
            s == patch@,
            reader.source_spec() == s,
            !reader.done_spec(),
            0 <= reader.pos_spec() <= s.len(),
            patch_ops_spec(s, 0) == ops_prepend(models(all@), patch_ops_spec(s, reader.pos_spec())),
        decreases s.len() - reader.pos_spec(),
    {
        let ghost p0 = reader.pos_spec();
        proof {
            lemma_decoded_section_bounds(s, p0);
        }
        let (ops, header) = match reader.next() {
            Some(Ok(v)) => v,
            Some(Err(e)) => return Err(e),
            None => return Err(SmdiffError::InvalidData),
        };
        let ghost pre = models(all@);
        let mut i: usize = 0;
        while i < ops.len()
            invariant
                i <= ops@.len(),
                models(all@) == pre + models(ops@).subrange(0, i as int),
            decreases ops@.len() - i,
        {
            let ghost before = models(all@);
            let o = clone_op(&ops[i]);
            all.push(o);
            proof {
                assert(models(all@) =~= before.push(op_model(o)));
                assert(models(ops@)[i as int] == op_model(ops@[i as int]));
                assert(models(ops@).subrange(0, i + 1) =~= models(ops@).subrange(0, i as int).push(models(ops@)[i as int]));
            }
            i = i + 1;
            proof {
                assert(models(all@) =~= pre + models(ops@).subrange(0, i as int));
            }
        }
        proof {
            assert(models(ops@).subrange(0, ops@.len() as int) =~= models(ops@));
        }
        if !header.more_sections {
            proof {
                assert(pre + models(ops@) =~= models(all@));
            }
            return Ok(all);
        }
        proof {
            if let Ok(rest) = patch_ops_spec(s, reader.pos_spec()) {
                assert(pre + (models(ops@) + rest) =~= models(all@) + rest);
            }
        }
    }
}

/// Records one operation in the counters, as `stats_step` says; false (and unchanged
/// counters) where a counter would overflow.
fn record_op(stats: &mut Stats, op: &Op<Add>) -> (r: bool)
    ensures
        match stats_step(*old(stats), op_model(*op)) {
            Some(st) => r && *final(stats) == st,
            None => !r,
        },
{
    let len = op.oal() as usize;
    match op {
        Op::Run(_) => {
            if stats.run_bytes > usize::MAX - len || stats.run_cnt == usize::MAX || stats.output_size > usize::MAX - len {
                return false;
            }
            stats.run(len);
        },
        Op::Add(_) => {
            if stats.add_bytes > usize::MAX - len || stats.add_cnt == usize::MAX || stats.output_size > usize::MAX - len {
                return false;
            }
            stats.add(len);
        },
        Op::Copy(c) => {
            match c.src {
                CopySrc::Dict => {
                    if stats.copy_bytes > usize::MAX - len || stats.copy_d_cnt == usize::MAX || stats.output_size > usize::MAX - len {
                        return false;
                    }
                    stats.copy_d(len);
                },
                CopySrc::Output => {
                    if stats.copy_bytes > usize::MAX - len || stats.copy_o_cnt == usize::MAX || stats.output_size > usize::MAX - len {
                        return false;
                    }
                    stats.copy_o(len);
                },
            }
        },
    }
    true
}

/// Extracts all instructions from all windows, each with the output position at which it
/// starts, and counts them. An operation whose position or copied range would leave the u64
/// range, or a counter that would overflow, makes the patch invalid.
pub fn extract_patch_instructions(patch: &[u8]) -> (r: Result<(Vec<SparseOp>, Stats), SmdiffError>)
    ensures
        match patch_ops_spec(patch@, 0) {
            Err(e) => r == Err::<(Vec<SparseOp>, Stats), SmdiffError>(e),
            Ok(ops) => match extract_spec(ops) {
                None => r == Err::<(Vec<SparseOp>, Stats), SmdiffError>(SmdiffError::InvalidData),
                Some((sp, st, _)) => r matches Ok((v, stats)) && sparse_models(v@) == sp && stats == st && sparse_ok(sp),
            },
        },
{
    let ops = read_patch_ops(patch)?;
    let ghost ms = models(ops@);
    let mut output: Vec<SparseOp> = Vec::new();
    let mut stats = Stats::new();
    let mut o_pos_start: u64 = 0;
    let mut i: usize = 0;
    proof {
        assert(ms.subrange(0, 0) =~= Seq::<OpModel>::empty());
        assert(sparse_models(output@) =~= Seq::<(u64, OpModel)>::empty());
    }
    while i < ops.len()
        invariant
            i <= ops@.len(),
            ms == models(ops@),
            patch_ops_spec(patch@, 0) == Ok::<Seq<OpModel>, SmdiffError>(ms),
            extract_spec(ms.subrange(0, i as int)) == Some((sparse_models(output@), stats, o_pos_start)),
            sparse_ok(sparse_models(output@)),
            output@.len() > 0 ==> sop_end(sparse_models(output@).last()) == o_pos_start,
            forall|k: int| 0 <= k < output@.len() ==> sop_end(#[trigger] sparse_models(output@)[k]) <= o_pos_start,
        decreases ops@.len() - i,
    {
        proof {
            assert(ms.subrange(0, i + 1).drop_last() =~= ms.subrange(0, i as int));
            assert(ms[i as int] == op_model(ops@[i as int]));
        }
        let op = clone_op(&ops[i]);
        let fits = match &op {
            Op::Copy(c) => c.addr <= u64::MAX - c.len as u64,
            _ => true,
        };
        let oal_len = op.oal() as u64;
        if !fits || o_pos_start > u64::MAX - oal_len {
            proof {
                lemma_extract_none(ms, (i + 1) as nat);
            }
            return Err(SmdiffError::InvalidData);
        }
        if !record_op(&mut stats, &op) {
            proof {
                lemma_extract_none(ms, (i + 1) as nat);
            }
            return Err(SmdiffError::InvalidData);
        }
        let ghost pre = sparse_models(output@);
        output.push((o_pos_start, op));
        proof {
            assert(sparse_models(output@) =~= pre.push((o_pos_start, op_model(op))));
        }
        o_pos_start = o_pos_start + oal_len;
        i = i + 1;
    }
    proof {
        assert(ms.subrange(0, ops@.len() as int) =~= ms);
    }
    Ok((output, stats))
}

proof fn lemma_extract_none(ops: Seq<OpModel>, j: nat)
    requires
        j <= ops.len(),
        extract_spec(ops.subrange(0, j as int)) is None,
    ensures
        extract_spec(ops) is None,
    decreases ops.len() - j,
{
    if j < ops.len() {
        assert(ops.drop_last().subrange(0, j as int) =~= ops.subrange(0, j as int));
        lemma_extract_none(ops.drop_last(), j);
    } else {
        assert(ops.subrange(0, j as int) =~= ops);
    }
}


/// The operations of sparse operations.
pub open spec fn ops_of(s: Seq<(u64, OpModel)>) -> Seq<OpModel> {
    s.map_values(|x: (u64, OpModel)| x.1)
}

/// `ops` appended to `out`, each starting where the previous one ends (the first at `cur`),
/// and the position after them; None where a position or a copied range leaves the u64 range.
pub open spec fn place(out: Seq<(u64, OpModel)>, cur: u64, ops: Seq<OpModel>) -> Option<(Seq<(u64, OpModel)>, u64)>
    decreases ops.len(),
{
    if ops.len() == 0 {
        Some((out, cur))
    } else {
        match place(out, cur, ops.drop_last()) {
            None => None,
            Some((o, c)) => {
                let op = ops.last();
                if !copy_fits(op) || c + op_oal(op) > u64::MAX {
                    None
                } else {
                    Some((o.push((c, op)), (c + op_oal(op)) as u64))
                }
            },
        }
    }
}

/// Sparse operations laid out up to `cur`: valid, the last one ending at `cur`.
pub open spec fn placed_ok(out: Seq<(u64, OpModel)>, cur: u64) -> bool {
    &&& sparse_ok(out)
    &&& out.len() > 0 ==> sop_end(out.last()) == cur
    &&& forall|k: int| 0 <= k < out.len() ==> sop_end(#[trigger] out[k]) <= cur
}

/// Placing `a + b` is placing `a`, then `b` after it.
pub proof fn lemma_place_concat(out: Seq<(u64, OpModel)>, cur: u64, a: Seq<OpModel>, b: Seq<OpModel>)
    ensures
        place(out, cur, a + b) == match place(out, cur, a) {
            None => None,
            Some((o, c)) => place(o, c, b),
        },
    decreases b.len(),
{
    if b.len() == 0 {
        assert(a + b =~= a);
    } else {
        lemma_place_concat(out, cur, a, b.drop_last());
        assert((a + b).drop_last() =~= a + b.drop_last());
    }
}

/// Places one operation at `*cur`; false (and nothing changed) where it would leave the u64 range.
fn place_one(out: &mut Vec<SparseOp>, cur: &mut u64, op: Op<Add>) -> (r: bool)
    requires
        placed_ok(sparse_models(old(out)@), *old(cur)),
    ensures
        match place(sparse_models(old(out)@), *old(cur), seq![op_model(op)]) {
            Some((o, c)) => r && sparse_models(final(out)@) == o && *final(cur) == c,
            None => !r && *final(out) == *old(out) && *final(cur) == *old(cur),
        },
        placed_ok(sparse_models(final(out)@), *final(cur)),
{
    let ghost m = op_model(op);
    proof {
        reveal_with_fuel(place, 2);
        assert(seq![m].drop_last() =~= Seq::<OpModel>::empty());
        assert(seq![m].last() == m);
    }
    let fits = match &op {
        Op::Copy(c) => c.addr <= u64::MAX - c.len as u64,
        _ => true,
    };
    let len = op.oal() as u64;
    if !fits || *cur > u64::MAX - len {
        return false;
    }
    let ghost pre = sparse_models(out@);
    out.push((*cur, op));
    proof {
        assert(sparse_models(out@) =~= pre.push((*cur, m)));
    }
    *cur = *cur + len;
    true
}

/// Places the operations of `ops` (their own positions are ignored) from `*cur` on.
fn place_ops(out: &mut Vec<SparseOp>, cur: &mut u64, ops: &Vec<SparseOp>) -> (r: bool)
    requires
        placed_ok(sparse_models(old(out)@), *old(cur)),
    ensures
        match place(sparse_models(old(out)@), *old(cur), ops_of(sparse_models(ops@))) {
            Some((o, c)) => r && sparse_models(final(out)@) == o && *final(cur) == c,
            None => !r,
        },
        placed_ok(sparse_models(final(out)@), *final(cur)),
{
    let ghost o0 = sparse_models(out@);
    let ghost c0 = *cur;
    let ghost ms = ops_of(sparse_models(ops@));
    let mut i: usize = 0;
    proof {
        assert(ms.subrange(0, 0) =~= Seq::<OpModel>::empty());
    }
    while i < ops.len()
        invariant
            i <= ops@.len(),
            ms == ops_of(sparse_models(ops@)),
            o0 == sparse_models(old(out)@),
            c0 == *old(cur),
            place(o0, c0, ms.subrange(0, i as int)) == Some((sparse_models(out@), *cur)),
            placed_ok(sparse_models(out@), *cur),
        decreases ops@.len() - i,
    {
        proof {
            assert(ms[i as int] == op_model(ops@[i as int].1));
            assert(ms.subrange(0, i + 1) =~= ms.subrange(0, i as int) + seq![ms[i as int]]);
            lemma_place_concat(o0, c0, ms.subrange(0, i as int), seq![ms[i as int]]);
        }
        let op = clone_op(&ops[i].1);
        if !place_one(out, cur, op) {
            proof {
                lemma_place_none(o0, c0, ms, (i + 1) as nat);
            }
            return false;
        }
        i = i + 1;
    }
    proof {
        assert(ms.subrange(0, ops@.len() as int) =~= ms);
    }
    true
}

proof fn lemma_place_none(out: Seq<(u64, OpModel)>, cur: u64, ops: Seq<OpModel>, j: nat)
    requires
        j <= ops.len(),
        place(out, cur, ops.subrange(0, j as int)) is None,
    ensures
        place(out, cur, ops) is None,
    decreases ops.len() - j,
{
    if j < ops.len() {
        assert(ops.drop_last().subrange(0, j as int) =~= ops.subrange(0, j as int));
        lemma_place_none(out, cur, ops.drop_last(), j);
    } else {
        assert(ops.subrange(0, j as int) =~= ops);
    }
}

/// The operations with every output Copy replaced by the operations that produced the bytes it
/// copies, laid out again from 0, and the position after them; None where a copy cannot be
/// resolved or a position leaves the u64 range.
pub open spec fn deref_spec(ext: Seq<(u64, OpModel)>) -> Option<(Seq<(u64, OpModel)>, u64)>
    decreases ext.len(),
{
    if ext.len() == 0 {
        Some((Seq::empty(), 0u64))
    } else {
        match deref_spec(ext.drop_last()) {
            None => None,
            Some((out, cur)) => {
                let op = ext.last().1;
                if op matches OpModel::Copy(c) && c.src is Output {
                    match exact_slice_spec(out, op->Copy_0.addr as int, op->Copy_0.len as int) {
                        None => None,
                        Some(res) => place(out, cur, ops_of(res)),
                    }
                } else {
                    place(out, cur, seq![op])
                }
            },
        }
    }
}

proof fn lemma_deref_none(ext: Seq<(u64, OpModel)>, j: nat)
    requires
        j <= ext.len(),
        deref_spec(ext.subrange(0, j as int)) is None,
    ensures
        deref_spec(ext) is None,
    decreases ext.len() - j,
{
    if j < ext.len() {
        assert(ext.drop_last().subrange(0, j as int) =~= ext.subrange(0, j as int));
        lemma_deref_none(ext.drop_last(), j);
    } else {
        assert(ext.subrange(0, j as int) =~= ext);
    }
}

/// This function will dereference all Copy_Output instructions in the extracted instructions.
/// None where a copy cannot be resolved from the operations before it.
pub fn deref_copy_o(extracted: Vec<SparseOp>) -> (r: Option<Vec<SparseOp>>)
    requires
        sparse_bounded(sparse_models(extracted@)),
    ensures
        match deref_spec(sparse_models(extracted@)) {
            None => r is None,
            Some((o, c)) => r matches Some(v) && sparse_models(v@) == o && sparse_ok(o),
        },
{
    let ghost ext = sparse_models(extracted@);
    let mut output: Vec<SparseOp> = Vec::new();
    let mut cur_o_pos: u64 = 0;
    let mut i: usize = 0;
    proof {
        assert(ext.subrange(0, 0) =~= Seq::<(u64, OpModel)>::empty());
        assert(sparse_models(output@) =~= Seq::<(u64, OpModel)>::empty());
    }
    while i < extracted.len()
        invariant
            i <= extracted@.len(),
            ext == sparse_models(extracted@),
            sparse_bounded(ext),
            deref_spec(ext.subrange(0, i as int)) == Some((sparse_models(output@), cur_o_pos)),
            placed_ok(sparse_models(output@), cur_o_pos),
        decreases extracted@.len() - i,
    {
        proof {
            assert(ext.subrange(0, i + 1).drop_last() =~= ext.subrange(0, i as int));
            assert(ext[i as int] == sparse_model(extracted@[i as int]));
        }
        let op = clone_op(&extracted[i].1);
        let ok = match &op {
            Op::Copy(copy) if copy.src == CopySrc::Output => {
                proof {
                    assert(copy_fits(ext[i as int].1));
                }
                match get_exact_slice(output.as_slice(), copy.addr, copy.len as u32) {
                    None => false,
                    Some(resolved) => place_ops(&mut output, &mut cur_o_pos, &resolved),
                }
            },
            _ => place_one(&mut output, &mut cur_o_pos, op),
        };
        if !ok {
            proof {
                lemma_deref_none(ext, (i + 1) as nat);
            }
            return None;
        }
        i = i + 1;
    }
    proof {
        assert(ext.subrange(0, extracted@.len() as int) =~= ext);
    }
    Some(output)
}

/// A Copy from the dictionary.
pub open spec fn is_copy_d(op: OpModel) -> bool {
    op matches OpModel::Copy(c) && c.src is Dict
}

/// The indices (plus `shift`) of the dictionary copies, in order.
pub open spec fn copy_d_indices(s: Seq<(u64, OpModel)>, shift: int) -> Seq<usize>
    decreases s.len(),
{
    if s.len() == 0 {
        Seq::empty()
    } else if is_copy_d(s.last().1) {
        copy_d_indices(s.drop_last(), shift).push((shift + s.len() - 1) as usize)
    } else {
        copy_d_indices(s.drop_last(), shift)
    }
}

/// Appends to `dest` the index (plus `shift`) of every dictionary copy in `extract`.
pub fn find_mergeable_copies(extract: &[SparseOp], shift: usize, dest: &mut Vec<usize>)
    requires
        shift + extract@.len() <= usize::MAX,
    ensures
        final(dest)@ == old(dest)@ + copy_d_indices(sparse_models(extract@), shift as int),
{
    let ghost s = sparse_models(extract@);
    let mut i: usize = 0;
    proof {
        assert(old(dest)@ + copy_d_indices(s.subrange(0, 0), shift as int) =~= old(dest)@);
    }
    while i < extract.len()
        invariant
            i <= extract@.len(),
            s == sparse_models(extract@),
            shift + extract@.len() <= usize::MAX,
            dest@ == old(dest)@ + copy_d_indices(s.subrange(0, i as int), shift as int),
        decreases extract@.len() - i,
    {
        proof {
            assert(s.subrange(0, i + 1).drop_last() =~= s.subrange(0, i as int));
            assert(s[i as int] == sparse_model(extract@[i as int]));
        }
        let ghost before = dest@;
        match &extract[i].1 {
            Op::Copy(copy) if copy.src == CopySrc::Dict => {
                dest.push(i + shift);
                proof {
                    assert(dest@ =~= old(dest)@ + copy_d_indices(s.subrange(0, i + 1), shift as int));
                }
            },
            _ => {},
        }
        i = i + 1;
    }
    proof {
        assert(s.subrange(0, extract@.len() as int) =~= s);
    }
}


/// What replaces the operation at index `k`: the operations inserted there, if any, else itself.
pub open spec fn replacement(t: Seq<OpModel>, ins: Seq<(usize, Seq<OpModel>)>, k: int) -> Seq<OpModel> {
    if exists|j: int| 0 <= j < ins.len() && ins[j].0 == k {
        ins[choose|j: int| 0 <= j < ins.len() && ins[j].0 == k].1
    } else {
        seq![t[k]]
    }
}

/// The operations with each inserted index replaced by the operations inserted there.
pub open spec fn expand_ops(t: Seq<OpModel>, ins: Seq<(usize, Seq<OpModel>)>) -> Seq<OpModel>
    decreases t.len(),
{
    if t.len() == 0 {
        Seq::empty()
    } else {
        expand_ops(t.drop_last(), ins) + replacement(t, ins, t.len() - 1)
    }
}

/// The model of a list of insertions.
pub open spec fn inserts_model(ins: Seq<(usize, Vec<SparseOp>)>) -> Seq<(usize, Seq<OpModel>)> {
    ins.map_values(|x: (usize, Vec<SparseOp>)| (x.0, ops_of(sparse_models(x.1@))))
}

/// Insertion indices strictly increasing and inside the target.
pub open spec fn inserts_ok(ins: Seq<(usize, Seq<OpModel>)>, n: int) -> bool {
    &&& forall|a: int, b: int| 0 <= a < b < ins.len() ==> ins[a].0 < ins[b].0
    &&& forall|a: int| 0 <= a < ins.len() ==> #[trigger] ins[a].0 < n
}

proof fn lemma_expand_step(t: Seq<OpModel>, ins: Seq<(usize, Seq<OpModel>)>, n: int)
    requires
        0 <= n < t.len(),
    ensures
        expand_ops(t.subrange(0, n + 1), ins) == expand_ops(t.subrange(0, n), ins) + replacement(t.subrange(0, n + 1), ins, n),
        t.subrange(0, n + 1)[n] == t[n],
{
    assert(t.subrange(0, n + 1).drop_last() =~= t.subrange(0, n));
}

/// Splices the inserted operations into `target` in place of the operations at their indices,
/// and lays the result out again from output position 0. None where a position would leave
/// the u64 range.
#[verifier::spinoff_prover]
#[verifier::rlimit(30)]
fn expand_to(target: Vec<SparseOp>, inserts: Vec<(usize, Vec<SparseOp>)>) -> (r: Option<Vec<SparseOp>>)
    requires
        inserts_ok(inserts_model(inserts@), target@.len() as int),
    ensures
        match place(Seq::empty(), 0, expand_ops(ops_of(sparse_models(target@)), inserts_model(inserts@))) {
            None => r is None,
            Some((o, c)) => r matches Some(v) && sparse_models(v@) == o && sparse_ok(o),
        },
{
    let ghost t = ops_of(sparse_models(target@));
    let ghost ins = inserts_model(inserts@);
    let mut result: Vec<SparseOp> = Vec::new();
    let mut cur_o_pos: u64 = 0;
    let mut cur_idx: usize = 0;
    let mut j: usize = 0;
    proof {
        assert(t.subrange(0, 0) =~= Seq::<OpModel>::empty());
        assert(sparse_models(result@) =~= Seq::<(u64, OpModel)>::empty());
    }
    while j < inserts.len()
        invariant
            j <= inserts@.len(),
            cur_idx <= target@.len(),
            t == ops_of(sparse_models(target@)),
            t.len() == target@.len(),
            ins == inserts_model(inserts@),
            ins.len() == inserts@.len(),
            inserts_ok(ins, target@.len() as int),
            forall|a: int| 0 <= a < j ==> #[trigger] ins[a].0 < cur_idx,
            j < ins.len() ==> cur_idx <= ins[j as int].0,
            place(Seq::empty(), 0, expand_ops(t.subrange(0, cur_idx as int), ins)) == Some((sparse_models(result@), cur_o_pos)),
            placed_ok(sparse_models(result@), cur_o_pos),
        decreases inserts@.len() - j,
    {
        let insert_pos = inserts[j].0;
        proof {
            assert(ins[j as int].0 == insert_pos);
            assert(ins[j as int].0 < target@.len());
        }
        while cur_idx < insert_pos
            invariant
                j < inserts@.len(),
                cur_idx <= insert_pos,
                insert_pos < target@.len(),
                insert_pos == ins[j as int].0,
                t == ops_of(sparse_models(target@)),
                t.len() == target@.len(),
                ins == inserts_model(inserts@),
                ins.len() == inserts@.len(),
                inserts_ok(ins, target@.len() as int),
                forall|a: int| 0 <= a < j ==> #[trigger] ins[a].0 < cur_idx,
                place(Seq::empty(), 0, expand_ops(t.subrange(0, cur_idx as int), ins)) == Some((sparse_models(result@), cur_o_pos)),
                placed_ok(sparse_models(result@), cur_o_pos),
            decreases insert_pos - cur_idx,
        {
            proof {
                lemma_expand_step(t, ins, cur_idx as int);
                assert forall|a: int| 0 <= a < ins.len() implies ins[a].0 != cur_idx by {
                    if a > j {
                        assert(ins[j as int].0 < ins[a].0);
                    }
                }
                assert(replacement(t.subrange(0, cur_idx + 1), ins, cur_idx as int) == seq![t[cur_idx as int]]);
                assert(t[cur_idx as int] == op_model(target@[cur_idx as int].1));
                lemma_place_concat(Seq::empty(), 0, expand_ops(t.subrange(0, cur_idx as int), ins), seq![t[cur_idx as int]]);
            }
            let op = clone_op(&target[cur_idx].1);
            if !place_one(&mut result, &mut cur_o_pos, op) {
                proof {
                    lemma_expand_place_none(t, ins, (cur_idx + 1) as int);
                }
                return None;
            }
            cur_idx = cur_idx + 1;
        }
        assert(cur_idx == insert_pos);
        assert(cur_idx < target@.len());
        proof {
            lemma_expand_step(t, ins, cur_idx as int);
            assert forall|a: int| 0 <= a < ins.len() && ins[a].0 == cur_idx implies a == j by {
                if a < j {
                    assert(ins[a].0 < cur_idx);
                } else if a > j {
                    assert(ins[j as int].0 < ins[a].0);
                }
            }
            assert(replacement(t.subrange(0, cur_idx + 1), ins, cur_idx as int) == ins[j as int].1);
            assert(ins[j as int].1 == ops_of(sparse_models(inserts@[j as int].1@)));
            lemma_place_concat(Seq::empty(), 0, expand_ops(t.subrange(0, cur_idx as int), ins), ins[j as int].1);
        }
        if !place_ops(&mut result, &mut cur_o_pos, &inserts[j].1) {
            proof {
                lemma_expand_place_none(t, ins, (cur_idx + 1) as int);
            }
            return None;
        }
        assert(cur_idx < target@.len());
        cur_idx = cur_idx + 1;
        proof {
            if j + 1 < ins.len() {
                assert(ins[j as int].0 < ins[j + 1].0);
            }
        }
        j = j + 1;
    }
    while cur_idx < target.len()
        invariant
            cur_idx <= target@.len(),
            t == ops_of(sparse_models(target@)),
            t.len() == target@.len(),
            ins == inserts_model(inserts@),
            forall|a: int| 0 <= a < ins.len() ==> #[trigger] ins[a].0 < cur_idx,
            place(Seq::empty(), 0, expand_ops(t.subrange(0, cur_idx as int), ins)) == Some((sparse_models(result@), cur_o_pos)),
            placed_ok(sparse_models(result@), cur_o_pos),
        decreases target@.len() - cur_idx,
    {
        proof {
            lemma_expand_step(t, ins, cur_idx as int);
            assert(replacement(t.subrange(0, cur_idx + 1), ins, cur_idx as int) == seq![t[cur_idx as int]]);
            assert(t[cur_idx as int] == op_model(target@[cur_idx as int].1));
            lemma_place_concat(Seq::empty(), 0, expand_ops(t.subrange(0, cur_idx as int), ins), seq![t[cur_idx as int]]);
        }
        let op = clone_op(&target[cur_idx].1);
        if !place_one(&mut result, &mut cur_o_pos, op) {
            proof {
                lemma_expand_place_none(t, ins, (cur_idx + 1) as int);
            }
            return None;
        }
        cur_idx = cur_idx + 1;
    }
    proof {
        assert(t.subrange(0, t.len() as int) =~= t);
    }
    Some(result)
}

proof fn lemma_expand_place_none(t: Seq<OpModel>, ins: Seq<(usize, Seq<OpModel>)>, n: int)
    requires
        0 <= n <= t.len(),
        place(Seq::empty(), 0, expand_ops(t.subrange(0, n), ins)) is None,
    ensures
        place(Seq::empty(), 0, expand_ops(t, ins)) is None,
    decreases t.len() - n,
{
    if n < t.len() {
        lemma_expand_step(t, ins, n);
        let a = expand_ops(t.subrange(0, n), ins);
        let b = replacement(t.subrange(0, n + 1), ins, n);
        lemma_place_concat(Seq::empty(), 0, a, b);
        lemma_expand_place_none(t, ins, n + 1);
    } else {
        assert(t.subrange(0, n) =~= t);
    }
}


/// Where the indices of the dictionary copies point, and their order.
#[verifier::rlimit(40)]
#[verifier::spinoff_prover]
proof fn lemma_copy_d_indices(s: Seq<(u64, OpModel)>, shift: int)
    requires
        0 <= shift,
        shift + s.len() <= usize::MAX,
    ensures
        forall|j: int| 0 <= j < copy_d_indices(s, shift).len() ==> shift <= #[trigger] copy_d_indices(s, shift)[j] < shift + s.len()
            && is_copy_d(s[copy_d_indices(s, shift)[j] - shift].1),
        forall|a: int, b: int| 0 <= a < b < copy_d_indices(s, shift).len() ==> copy_d_indices(s, shift)[a] < copy_d_indices(s, shift)[b],
        forall|k: int| 0 <= k < s.len() && is_copy_d(#[trigger] s[k].1) ==> exists|j: int| 0 <= j < copy_d_indices(s, shift).len() && copy_d_indices(s, shift)[j] == shift + k,
    decreases s.len(),
{
    if s.len() > 0 {
        let prev = s.drop_last();
        lemma_copy_d_indices(prev, shift);
        let idx = copy_d_indices(s, shift);
        let pidx = copy_d_indices(prev, shift);
        assert forall|k: int| 0 <= k < s.len() && is_copy_d(#[trigger] s[k].1) implies exists|j: int| 0 <= j < idx.len() && idx[j] == shift + k by {
            if k < s.len() - 1 {
                assert(prev[k] == s[k]);
                let j = choose|j: int| 0 <= j < pidx.len() && pidx[j] == shift + k;
                assert(idx[j] == pidx[j]);
            } else {
                assert(idx[pidx.len() as int] == shift + k);
            }
        }
        assert forall|j: int| 0 <= j < idx.len() implies shift <= #[trigger] idx[j] < shift + s.len() && is_copy_d(s[idx[j] - shift].1) by {
            if j < pidx.len() {
                assert(idx[j] == pidx[j]);
                assert(prev[pidx[j] - shift] == s[pidx[j] - shift]);
            }
        }
    }
}

/// A dictionary copy's replacement: the clipped operations of `pred` that produced the bytes
/// it copies. Any other operation stays.
pub open spec fn resolve_one(op: OpModel, pred: Seq<(u64, OpModel)>) -> Seq<OpModel> {
    if is_copy_d(op) {
        match exact_slice_spec(pred, op->Copy_0.addr as int, op->Copy_0.len as int) {
            Some(sl) => ops_of(sl),
            None => Seq::empty(),
        }
    } else {
        seq![op]
    }
}

/// Every dictionary copy of `ops` replaced by its resolution in `pred`.
pub open spec fn flat_resolve(ops: Seq<OpModel>, pred: Seq<(u64, OpModel)>) -> Seq<OpModel>
    decreases ops.len(),
{
    if ops.len() == 0 {
        Seq::empty()
    } else {
        flat_resolve(ops.drop_last(), pred) + resolve_one(ops.last(), pred)
    }
}

/// Every dictionary copy of `ops` can be resolved in `pred`.
pub open spec fn resolvable(ops: Seq<OpModel>, pred: Seq<(u64, OpModel)>) -> bool {
    forall|k: int| 0 <= k < ops.len() && is_copy_d(#[trigger] ops[k])
        ==> exact_slice_spec(pred, ops[k]->Copy_0.addr as int, ops[k]->Copy_0.len as int) is Some
}

proof fn lemma_expand_resolve(t: Seq<(u64, OpModel)>, ins: Seq<(usize, Seq<OpModel>)>, pred: Seq<(u64, OpModel)>)
    requires
        t.len() <= usize::MAX,
        ins.len() == copy_d_indices(t, 0).len(),
        forall|a: int| 0 <= a < ins.len() ==> #[trigger] ins[a].0 == copy_d_indices(t, 0)[a]
            && ins[a].1 == resolve_one(t[ins[a].0 as int].1, pred),
    ensures
        expand_ops(ops_of(t), ins) == flat_resolve(ops_of(t), pred),
{
    let tt = ops_of(t);
    let idx = copy_d_indices(t, 0);
    lemma_copy_d_indices(t, 0);
    assert forall|n: int| 0 <= n <= tt.len() implies expand_ops(#[trigger] tt.subrange(0, n), ins) == flat_resolve(tt.subrange(0, n), pred) by {
        lemma_expand_resolve_prefix(t, ins, pred, n);
    }
    assert(tt.subrange(0, tt.len() as int) =~= tt);
}

proof fn lemma_expand_resolve_prefix(t: Seq<(u64, OpModel)>, ins: Seq<(usize, Seq<OpModel>)>, pred: Seq<(u64, OpModel)>, n: int)
    requires
        0 <= n <= t.len(),
        t.len() <= usize::MAX,
        ins.len() == copy_d_indices(t, 0).len(),
        forall|a: int| 0 <= a < ins.len() ==> #[trigger] ins[a].0 == copy_d_indices(t, 0)[a]
            && ins[a].1 == resolve_one(t[ins[a].0 as int].1, pred),
    ensures
        expand_ops(ops_of(t).subrange(0, n), ins) == flat_resolve(ops_of(t).subrange(0, n), pred),
    decreases n,
{
    let tt = ops_of(t);
    if n > 0 {
        lemma_expand_resolve_prefix(t, ins, pred, n - 1);
        let pre = tt.subrange(0, n);
        assert(pre.drop_last() =~= tt.subrange(0, n - 1));
        assert(pre.last() == t[n - 1].1);
        lemma_copy_d_indices(t, 0);
        let idx = copy_d_indices(t, 0);
        if is_copy_d(t[n - 1].1) {
            let j = choose|j: int| 0 <= j < idx.len() && idx[j] == n - 1;
            assert(ins[j].0 == n - 1);
            assert forall|a: int| 0 <= a < ins.len() && ins[a].0 == n - 1 implies a == j by {
                if a < j {
                    assert(idx[a] < idx[j]);
                } else if a > j {
                    assert(idx[j] < idx[a]);
                }
            }
            assert(replacement(pre, ins, n - 1) == resolve_one(pre.last(), pred));
        } else {
            assert forall|a: int| 0 <= a < ins.len() implies ins[a].0 != n - 1 by {
                assert(ins[a].0 == idx[a]);
            }
            assert(replacement(pre, ins, n - 1) == resolve_one(pre.last(), pred));
        }
    }
}

/// The operations without their positions.
fn strip_positions(v: Vec<SparseOp>) -> (r: Vec<Op<Add>>)
    ensures
        models(r@) == ops_of(sparse_models(v@)),
{
    let ghost target = ops_of(sparse_models(v@));
    let mut out: Vec<Op<Add>> = Vec::new();
    let mut i: usize = 0;
    while i < v.len()
        invariant
            i <= v@.len(),
            target == ops_of(sparse_models(v@)),
            models(out@) == target.subrange(0, i as int),
        decreases v@.len() - i,
    {
        let ghost before = models(out@);
        let o = clone_op(&v[i].1);
        out.push(o);
        proof {
            assert(models(out@) =~= before.push(op_model(o)));
            assert(target[i as int] == op_model(v@[i as int].1));
            assert(models(out@) =~= target.subrange(0, i + 1));
        }
        i = i + 1;
    }
    proof {
        assert(target.subrange(0, v@.len() as int) =~= target);
    }
    out
}

/// The operations of the earlier patch as a merge uses them: extracted and, when they hold
/// copies, with the output copies resolved.
pub open spec fn predecessor_spec(s: Seq<u8>) -> Result<Seq<(u64, OpModel)>, SmdiffError> {
    match patch_ops_spec(s, 0) {
        Err(e) => Err(e),
        Ok(ops) => match extract_spec(ops) {
            None => Err(SmdiffError::InvalidData),
            Some((sp, st, _)) => if st.copy_bytes > 0 {
                match deref_spec(sp) {
                    None => Err(SmdiffError::InvalidData),
                    Some((d, _)) => Ok(d),
                }
            } else {
                Ok(sp)
            },
        },
    }
}

/// The summary after merging the earlier patch `s` under the summary `t`: every dictionary
/// copy of `t` replaced by the earlier patch's operations for those bytes, laid out again.
pub open spec fn merge_spec(t: Seq<(u64, OpModel)>, s: Seq<u8>) -> Result<Seq<(u64, OpModel)>, SmdiffError> {
    match predecessor_spec(s) {
        Err(e) => Err(e),
        Ok(pred) => if !resolvable(ops_of(t), pred) {
            Err(SmdiffError::InvalidData)
        } else {
            match place(Seq::empty(), 0, flat_resolve(ops_of(t), pred)) {
                None => Err(SmdiffError::InvalidData),
                Some((r, _)) => Ok(r),
            }
        },
    }
}

/// What a Merger starts from: the terminal patch's operations (Err: it has no copies, so it
/// is already the summary), with the output copies resolved.
pub open spec fn terminal_spec_of(s: Seq<u8>) -> Result<Result<Seq<(u64, OpModel)>, Seq<OpModel>>, SmdiffError> {
    match patch_ops_spec(s, 0) {
        Err(e) => Err(e),
        Ok(ops) => match extract_spec(ops) {
            None => Err(SmdiffError::InvalidData),
            Some((sp, st, _)) => if st.copy_bytes == 0 {
                Ok(Err(ops_of(sp)))
            } else {
                match deref_spec(sp) {
                    None => Err(SmdiffError::InvalidData),
                    Some((d, _)) => Ok(Ok(d)),
                }
            },
        },
    }
}

/// Merger struct that can accept merging of additional patches.
#[derive(Debug)]
pub struct Merger {
    /// The summary patch that will be written to the output.
    terminal_patch: Vec<SparseOp>,
    /// If this is empty, merging a patch will have no effect.
    /// These are where the dictionary copies are found.
    terminal_copy_indices: Vec<usize>,
}

/// The section format asked for, Interleaved when none is.
pub open spec fn format_or_interleaved(format: Option<Format>) -> Format {
    match format {
        Some(f) => f,
        None => Format::Interleaved,
    }
}

/// The section size asked for, MAX_WIN_SIZE when none is.
pub open spec fn win_or_max(max_win_size: Option<usize>) -> usize {
    match max_win_size {
        Some(m) => m,
        None => MAX_WIN_SIZE,
    }
}

/// This is returned when the current summary patch contains no Copy instructions, OR when you are finished with the Merger.
#[derive(Debug)]
pub struct SummaryPatch(Vec<Op<Add>>);

impl SummaryPatch {
    /// The operations of the summary patch.
    pub closed spec fn ops_spec(&self) -> Seq<OpModel> {
        models(self.0@)
    }

    /// Writes the summary patch to a sink, in sections of at most `max_win_size` output bytes
    /// (MAX_WIN_SIZE when not given; clamped to MAX_INST_SIZE..=MAX_WIN_SIZE), in `format`
    /// (Interleaved when not given), each with the secondary compression `sec_comp`.
    pub fn write(self, sink: &mut Vec<u8>, max_win_size: Option<usize>, format: Option<Format>, sec_comp: Option<SecondaryCompression>) -> (r: Result<(), SmdiffError>)
        requires
            forall|i: int| 0 <= i < self.ops_spec().len() ==> op_writable(#[trigger] self.ops_spec()[i]),
            sec_comp_buildable(sec_comp),
        ensures
            r is Err ==> r == Err::<(), SmdiffError>(SmdiffError::Compression) || r == Err::<(), SmdiffError>(SmdiffError::InvalidData),
            (forall|i: int| 0 <= i < self.ops_spec().len() ==> crate::reader::op_roundtrips(#[trigger] self.ops_spec()[i])) && r is Ok
                ==> exists|secs: Seq<(crate::common::SectionHeader, Seq<OpModel>, Seq<u8>)>| {
                &&& final(sink)@ == old(sink)@ + written_bytes(secs)
                &&& #[trigger] encoded_as(written_bytes(secs), secs, sec_comp, format_or_interleaved(format), clamp_section_size(win_or_max(max_win_size)))
                &&& written_ops(secs) == self.ops_spec()
            },
            all_emittable(self.ops_spec()) ==> (r is Err ==> r == Err::<(), SmdiffError>(SmdiffError::Compression)),
            all_emittable(self.ops_spec()) && (sec_comp is None || sec_comp matches Some(SecondaryCompression::Smdiff(_))) ==> r is Ok,
            r == Err::<(), SmdiffError>(SmdiffError::Compression) ==> exists|a: int, b: int| 0 <= a <= b <= self.ops_spec().len()
                && #[trigger] compression_fails(sec_comp, ops_bytes(self.ops_spec().subrange(a, b), format_or_interleaved(format))),
    {
        let win = match max_win_size {
            Some(m) => m,
            None => MAX_WIN_SIZE,
        };
        let fmt = match format {
            Some(f) => f,
            None => Format::Interleaved,
        };
        proof {
            assert forall|i: int| 0 <= i < self.0@.len() implies op_writable(op_model(#[trigger] self.0@[i])) by {
                assert(self.ops_spec()[i] == op_model(self.0@[i]));
            }
            if forall|i: int| 0 <= i < self.ops_spec().len() ==> crate::reader::op_roundtrips(#[trigger] self.ops_spec()[i]) {
                assert forall|i: int| 0 <= i < self.0@.len() implies crate::reader::op_roundtrips(op_model(#[trigger] self.0@[i])) by {
                    assert(self.ops_spec()[i] == op_model(self.0@[i]));
                }
            }
            if all_emittable(self.ops_spec()) {
                assert forall|i: int| 0 <= i < self.0@.len() implies crate::encoder::op_maker::op_emittable(#[trigger] models(self.0@)[i]) by {
                    assert(self.ops_spec()[i] == models(self.0@)[i]);
                }
            }
        }
        let ghost ops = self.ops_spec();
        let r = write_sections(self.0.as_slice(), win, fmt, &sec_comp, sink);
        proof {
            if (forall|i: int| 0 <= i < ops.len() ==> crate::reader::op_roundtrips(#[trigger] ops[i])) && r is Ok {
                let secs = choose|secs: Seq<(crate::common::SectionHeader, Seq<OpModel>, Seq<u8>)>| {
                    &&& sink@ == old(sink)@ + written_bytes(secs)
                    &&& #[trigger] encoded_as(written_bytes(secs), secs, sec_comp, fmt, clamp_section_size(win))
                    &&& written_ops(secs) == models(self.0@)
                };
                assert(encoded_as(written_bytes(secs), secs, sec_comp, format_or_interleaved(format), clamp_section_size(win_or_max(max_win_size))));
            }
        }
        r
    }

    /// Whether every Run of the summary is 1..=MAX_RUN_LEN long, so that it can be written.
    pub fn is_writable(&self) -> (r: bool)
        ensures
            r == (forall|i: int| 0 <= i < self.ops_spec().len() ==> op_writable(#[trigger] self.ops_spec()[i])),
    {
        let mut i: usize = 0;
        while i < self.0.len()
            invariant
                i <= self.0@.len(),
                forall|k: int| 0 <= k < i ==> op_writable(#[trigger] self.ops_spec()[k]),
            decreases self.0@.len() - i,
        {
            let ok = match &self.0[i] {
                Op::Run(r) => 1 <= r.len && r.len <= crate::common::MAX_RUN_LEN,
                _ => true,
            };
            if !ok {
                proof {
                    assert(self.ops_spec()[i as int] == op_model(self.0@[i as int]));
                }
                return false;
            }
            proof {
                assert(self.ops_spec()[i as int] == op_model(self.0@[i as int]));
            }
            i = i + 1;
        }
        true
    }

    /// Returns the ops that represents the summary patch.
    /// This allows applying them directly to a source file without translating them to a patch file.
    pub fn take_ops(self) -> (r: Vec<Op<Add>>)
        ensures
            models(r@) == self.ops_spec(),
    {
        self.0
    }
}

/// The insertions are, in order, the given indices of `t` with each one's resolution in `pred`.
pub open spec fn inserts_resolved(ins: Seq<(usize, Seq<OpModel>)>, idx: Seq<usize>, t: Seq<(u64, OpModel)>, pred: Seq<(u64, OpModel)>) -> bool {
    &&& ins.len() == idx.len()
    &&& forall|a: int| 0 <= a < idx.len() ==> #[trigger] ins[a].0 == idx[a]
        && ins[a].1 == resolve_one(t[idx[a] as int].1, pred)
        && exact_slice_spec(pred, t[idx[a] as int].1->Copy_0.addr as int, t[idx[a] as int].1->Copy_0.len as int) is Some
}

/// For each recorded dictionary copy of `terminal`, its index and the operations of `pred`
/// that produce the bytes it copies; None where one cannot be resolved.
fn resolve_copies(terminal: &Vec<SparseOp>, indices: &Vec<usize>, predecessor: &Vec<SparseOp>) -> (r: Option<Vec<(usize, Vec<SparseOp>)>>)
    requires
        sparse_ok(sparse_models(terminal@)),
        sparse_ok(sparse_models(predecessor@)),
        indices@ == copy_d_indices(sparse_models(terminal@), 0),
        terminal@.len() <= usize::MAX,
    ensures
        match r {
            None => !resolvable(ops_of(sparse_models(terminal@)), sparse_models(predecessor@)),
            Some(ins) => inserts_resolved(inserts_model(ins@), indices@, sparse_models(terminal@), sparse_models(predecessor@)),
        },
{
    let ghost t = sparse_models(terminal@);
    let ghost pred = sparse_models(predecessor@);
    proof {
        lemma_copy_d_indices(t, 0);
    }
    let ghost idx = copy_d_indices(t, 0);
    let mut inserts: Vec<(usize, Vec<SparseOp>)> = Vec::new();
    let mut j: usize = 0;
    while j < indices.len()
        invariant
            j <= idx.len(),
            idx == indices@,
            t == sparse_models(terminal@),
            sparse_ok(t),
            sparse_ok(pred),
            pred == sparse_models(predecessor@),
            inserts@.len() == j,
            forall|j: int| 0 <= j < idx.len() ==> #[trigger] idx[j] < t.len() && is_copy_d(t[idx[j] as int].1),
            forall|a: int| 0 <= a < j ==> #[trigger] inserts_model(inserts@)[a].0 == idx[a]
                && inserts_model(inserts@)[a].1 == resolve_one(t[idx[a] as int].1, pred)
                && exact_slice_spec(pred, t[idx[a] as int].1->Copy_0.addr as int, t[idx[a] as int].1->Copy_0.len as int) is Some,
        decreases idx.len() - j,
    {
        let i = indices[j];
        proof {
            assert(idx[j as int] < t.len() && is_copy_d(t[i as int].1));
            assert(t[i as int] == sparse_model(terminal@[i as int]));
        }
        let copy = match terminal[i].1.take_copy() {
            Some(c) => c,
            None => return None,
        };
        proof {
            assert(copy_fits(t[i as int].1));
        }
        let resolved = match get_exact_slice(predecessor.as_slice(), copy.addr, copy.len as u32) {
            Some(v) => v,
            None => {
                proof {
                    assert(t[i as int].1 == OpModel::Copy(copy));
                    assert(ops_of(t)[i as int] == t[i as int].1);
                    assert(is_copy_d(ops_of(t)[i as int]));
                }
                return None;
            },
        };
        let ghost before = inserts_model(inserts@);
        inserts.push((i, resolved));
        proof {
            assert forall|a: int| 0 <= a < j + 1 implies #[trigger] inserts_model(inserts@)[a].0 == idx[a]
                && inserts_model(inserts@)[a].1 == resolve_one(t[idx[a] as int].1, pred)
                && exact_slice_spec(pred, t[idx[a] as int].1->Copy_0.addr as int, t[idx[a] as int].1->Copy_0.len as int) is Some by {
                if a < j {
                    assert(inserts_model(inserts@)[a] == before[a]);
                }
            }
        }
        j = j + 1;
    }
    proof {
        assert(inserts_resolved(inserts_model(inserts@), indices@, t, pred));
    }
    Some(inserts)
}

impl Merger {
    /// The summary operations, with their output positions.
    pub closed spec fn terminal_spec(&self) -> Seq<(u64, OpModel)> {
        sparse_models(self.terminal_patch@)
    }

    /// The summary operations are laid out from 0 and the recorded indices are exactly those
    /// of its dictionary copies.
    pub closed spec fn wf(&self) -> bool {
        &&& sparse_ok(sparse_models(self.terminal_patch@))
        &&& self.terminal_copy_indices@ == copy_d_indices(sparse_models(self.terminal_patch@), 0)
    }

    /// Creates a new Merger from a terminal patch.
    /// This should only be called using the patch that generates the output file you want.
    /// # Returns
    /// If the terminal summary patch has no Copy instructions, a SummaryPatch is returned.
    /// If the terminal summary patch has even a single Copy instructions, a Merger is returned.
    pub fn new(terminal_patch: &[u8]) -> (r: Result<Result<Merger, SummaryPatch>, SmdiffError>)
        ensures
            match terminal_spec_of(terminal_patch@) {
                Err(e) => r == Err::<Result<Merger, SummaryPatch>, SmdiffError>(e),
                Ok(Err(ops)) => r matches Ok(Err(sp)) && sp.ops_spec() == ops,
                Ok(Ok(t)) => r matches Ok(Ok(m)) && m.wf() && m.terminal_spec() == t,
            },
    {
        let (terminal, stats) = extract_patch_instructions(terminal_patch)?;
        if stats.copy_bytes == 0 {
            return Ok(Err(SummaryPatch(strip_positions(terminal))));
        }
        let terminal = match deref_copy_o(terminal) {
            Some(t) => t,
            None => return Err(SmdiffError::InvalidData),
        };
        let mut terminal_copy_indices: Vec<usize> = Vec::new();
        proof {
            assert(terminal@.len() == terminal.len());
        }
        find_mergeable_copies(terminal.as_slice(), 0, &mut terminal_copy_indices);
        proof {
            assert(Seq::<usize>::empty() + copy_d_indices(sparse_models(terminal@), 0) =~= copy_d_indices(sparse_models(terminal@), 0));
        }
        Ok(Ok(Merger { terminal_patch: terminal, terminal_copy_indices }))
    }

    /// Merges a predecessor patch into the terminal patch.
    /// This should be called using proper order of patches.
    /// # Returns
    /// If the resulting summary patch has no Copy instructions, a SummaryPatch is returned.
    /// If the resulting summary patch has even a single Copy instructions, a Merger is returned.
    pub fn merge(self, predecessor_patch: &[u8]) -> (r: Result<Result<Merger, SummaryPatch>, SmdiffError>)
        requires
            self.wf(),
        ensures
            match merge_spec(self.terminal_spec(), predecessor_patch@) {
                Err(e) => r == Err::<Result<Merger, SummaryPatch>, SmdiffError>(e),
                Ok(t) => if copy_d_indices(t, 0).len() == 0 {
                    r matches Ok(Err(sp)) && sp.ops_spec() == ops_of(t)
                } else {
                    r matches Ok(Ok(m)) && m.wf() && m.terminal_spec() == t
                },
            },
    {
        let ghost t = sparse_models(self.terminal_patch@);
        let (mut predecessor, stats) = extract_patch_instructions(predecessor_patch)?;
        if stats.has_copy() {
            predecessor = match deref_copy_o(predecessor) {
                Some(p) => p,
                None => return Err(SmdiffError::InvalidData),
            };
        }
        let ghost pred = sparse_models(predecessor@);
        proof {
            assert(self.terminal_patch@.len() == self.terminal_patch.len());
        }
        let inserts = match resolve_copies(&self.terminal_patch, &self.terminal_copy_indices, &predecessor) {
            Some(v) => v,
            None => return Err(SmdiffError::InvalidData),
        };
        let ghost idx = copy_d_indices(t, 0);
        let ghost ins = inserts_model(inserts@);
        proof {
            lemma_copy_d_indices(t, 0);
            assert(resolvable(ops_of(t), pred)) by {
                assert forall|k: int| 0 <= k < ops_of(t).len() && is_copy_d(#[trigger] ops_of(t)[k])
                    implies exact_slice_spec(pred, ops_of(t)[k]->Copy_0.addr as int, ops_of(t)[k]->Copy_0.len as int) is Some by {
                    assert(ops_of(t)[k] == t[k].1);
                    assert(is_copy_d(t[k].1));
                    let a = choose|a: int| 0 <= a < idx.len() && idx[a] == 0 + k;
                    assert(ins[a].0 == idx[a]);
                }
            }
            lemma_copy_d_indices(t, 0);
            assert forall|a: int| 0 <= a < ins.len() implies #[trigger] ins[a].0 == copy_d_indices(t, 0)[a]
                && ins[a].1 == resolve_one(t[ins[a].0 as int].1, pred) by {
            }
            lemma_expand_resolve(t, ins, pred);
            assert(inserts_ok(ins, t.len() as int));
        }
        let expanded = match expand_to(self.terminal_patch, inserts) {
            Some(v) => v,
            None => return Err(SmdiffError::InvalidData),
        };
        let mut terminal_copy_indices: Vec<usize> = Vec::new();
        proof {
            assert(expanded@.len() == expanded.len());
        }
        find_mergeable_copies(expanded.as_slice(), 0, &mut terminal_copy_indices);
        proof {
            assert(Seq::<usize>::empty() + copy_d_indices(sparse_models(expanded@), 0) =~= copy_d_indices(sparse_models(expanded@), 0));
        }
        if terminal_copy_indices.len() == 0 {
            Ok(Err(SummaryPatch(strip_positions(expanded))))
        } else {
            Ok(Ok(Merger { terminal_patch: expanded, terminal_copy_indices }))
        }
    }

    /// Finishes the merger and returns the final summary patch ready to be written or applied.
    pub fn finish(self) -> (r: SummaryPatch)
        ensures
            r.ops_spec() == ops_of(self.terminal_spec()),
    {
        SummaryPatch(strip_positions(self.terminal_patch))
    }
}

} // verus!
