//! Rewrites a patch in another format or secondary compression, tidying its operations on
//! the way: each group of adjacent Adds (and of adjacent Runs of one byte) is joined, and the result is split into operations the
//! format can hold (long Runs become Runs followed by copies of themselves).
use vstd::prelude::*;
use crate::common::{models, op_model, Add, AddOp, Op, OpModel, Run, SmdiffError, MAX_INST_SIZE, MAX_RUN_LEN};
use crate::common::{Format, SectionHeader};
use crate::decoder::{written_bytes, written_ops};
use crate::writer::ops_bytes;
use crate::encoder::config::SecondaryCompression;
use crate::encoder::section::{compression_fails, encoded_as, sec_comp_buildable, write_sections};
use crate::merger::{extract_patch_instructions, extract_spec, patch_ops_spec, sparse_models};
use crate::writer::clamp_section_size;
use crate::encoder::op_maker::{add_chunks, add_ops_spec, lemma_models_extend, make_run_ops, op_emittable, run_ops_spec};

verus! {

/// An operation of the patch being transcoded: Adds own their bytes; Runs may be longer
/// than the format allows and remember where their bytes start in the output.
pub enum InnerOp {
    Add(Vec<u8>),
    Copy(crate::common::Copy),
    Run { byte: u8, len: usize, output_start_pos: usize },
}

/// What an InnerOp holds.
pub enum InnerModel {
    Add(Seq<u8>),
    Copy(crate::common::Copy),
    Run { byte: u8, len: nat, start: int },
}

pub open spec fn inner_model(op: InnerOp) -> InnerModel {
    match op {
        InnerOp::Add(b) => InnerModel::Add(b@),
        InnerOp::Copy(c) => InnerModel::Copy(c),
        InnerOp::Run { byte, len, output_start_pos } => InnerModel::Run { byte, len: len as nat, start: output_start_pos as int },
    }
}

pub open spec fn inner_models(ops: Seq<InnerOp>) -> Seq<InnerModel> {
    ops.map_values(|o: InnerOp| inner_model(o))
}

impl InnerOp {
    fn is_add(&self) -> (r: bool)
        ensures
            r == (inner_model(*self) is Add),
    {
        match self {
            InnerOp::Add(_) => true,
            _ => false,
        }
    }

    fn add_len(&self) -> (r: usize)
        ensures
            inner_model(*self) matches InnerModel::Add(b) ==> r == b.len(),
    {
        match self {
            InnerOp::Add(b) => b.len(),
            _ => 0,
        }
    }
}

/// Every group of adjacent Adds joined into one: scanning from `i` on, an Add right after an
/// Add of fewer than MAX_INST_SIZE bytes takes in that Add's bytes (before its own), leaving
/// it empty; so each group's bytes end up, in order, in the group's last Add, the others
/// empty, and a group stops growing once it holds MAX_INST_SIZE bytes or more.
pub open spec fn join_adds_spec(ops: Seq<InnerModel>, i: int) -> Seq<InnerModel>
    decreases ops.len() - i,
{
    if i < 1 || i >= ops.len() {
        ops
    } else {
        match (ops[i - 1], ops[i]) {
            (InnerModel::Add(a), InnerModel::Add(b)) if a.len() < MAX_INST_SIZE => join_adds_spec(
                ops.update(i - 1, InnerModel::Add(Seq::empty())).update(i, InnerModel::Add(a + b)),
                i + 1,
            ),
            _ => join_adds_spec(ops, i + 1),
        }
    }
}

/// Every group of adjacent Runs of one byte joined into one: scanning from `i` on, a Run right
/// after a Run of its byte takes in that Run's length and start, leaving it with none (while
/// the joined length stays within half the address space); so each group's length ends up
/// in the group's last Run, which starts where the group does.
pub open spec fn join_runs_spec(ops: Seq<InnerModel>, i: int) -> Seq<InnerModel>
    decreases ops.len() - i,
{
    if i < 1 || i >= ops.len() {
        ops
    } else {
        match (ops[i - 1], ops[i]) {
            (InnerModel::Run { byte: b1, len: l1, start: s1 }, InnerModel::Run { byte: b2, len: l2, start: s2 })
                if b1 == b2 && l1 + l2 <= usize::MAX / 2 => join_runs_spec(
                ops.update(i - 1, InnerModel::Run { byte: b1, len: 0, start: s1 }).update(
                    i,
                    InnerModel::Run { byte: b2, len: l1 + l2, start: s1 },
                ),
                i + 1,
            ),
            _ => join_runs_spec(ops, i + 1),
        }
    }
}

/// The format's operations for the transcoder's operations: Adds and Runs split (empty ones
/// dropped), Copies kept.
pub open spec fn convert_spec(ops: Seq<InnerModel>) -> Seq<OpModel>
    decreases ops.len(),
{
    if ops.len() == 0 {
        Seq::empty()
    } else {
        convert_spec(ops.drop_last()) + match ops.last() {
            InnerModel::Add(b) => add_ops_spec(b),
            InnerModel::Copy(c) => seq![OpModel::Copy(c)],
            InnerModel::Run { byte, len, start } => if len > 0 {
                run_ops_spec(byte, len as int, start as u64)
            } else {
                Seq::empty()
            },
        }
    }
}

/// Emits `bytes` as Add operations of at most MAX_INST_SIZE bytes (a single byte as a Run,
/// nothing for no bytes).
pub fn make_add_ops(bytes: Vec<u8>, output: &mut Vec<Op<Add>>)
    ensures
        final(output)@.len() >= old(output)@.len(),
        final(output)@.subrange(0, old(output)@.len() as int) == old(output)@,
        models(final(output)@).subrange(old(output)@.len() as int, final(output)@.len() as int) == add_ops_spec(bytes@),
        forall|i: int| old(output)@.len() <= i < final(output)@.len() ==> op_emittable(op_model(#[trigger] final(output)@[i])),
{
    let ghost n0 = output@.len();
    let total_len = bytes.len();
    if total_len == 0 {
        proof {
            assert(output@.subrange(0, n0 as int) =~= output@);
            assert(models(output@).subrange(n0 as int, n0 as int) =~= Seq::<OpModel>::empty());
        }
        return;
    } else if total_len == 1 {
        output.push(Op::Run(Run { len: 1, byte: bytes[0] }));
        proof {
            assert(output@.subrange(0, n0 as int) =~= old(output)@);
            assert(models(output@).subrange(n0 as int, output@.len() as int) =~= seq![OpModel::Run(Run { len: 1, byte: bytes@[0] })]);
        }
        return;
    } else if total_len == MAX_INST_SIZE {
        let ghost b = bytes@;
        output.push(Op::Add(Add { bytes }));
        proof {
            assert(output@.subrange(0, n0 as int) =~= old(output)@);
            assert(b.subrange(0, MAX_INST_SIZE as int) =~= b);
            assert(b.subrange(MAX_INST_SIZE as int, b.len() as int) =~= Seq::<u8>::empty());
            assert(add_chunks(b.subrange(MAX_INST_SIZE as int, b.len() as int)) =~= Seq::<OpModel>::empty());
            assert(models(output@).subrange(n0 as int, output@.len() as int) =~= seq![OpModel::Add(b)]);
            assert(add_chunks(b) =~= seq![OpModel::Add(b)]);
        }
        return;
    }
    let mut processed: usize = 0;
    proof {
        assert(bytes@.subrange(0, bytes@.len() as int) =~= bytes@);
        assert(models(output@).subrange(n0 as int, output@.len() as int) =~= Seq::<OpModel>::empty());
    }
    while processed < total_len
        invariant
            processed <= total_len == bytes@.len(),
            total_len != 1,
            output@.len() >= n0,
            n0 == old(output)@.len(),
            output@.subrange(0, n0 as int) == old(output)@,
            models(output@).subrange(n0 as int, output@.len() as int) + add_chunks(bytes@.subrange(processed as int, total_len as int))
                == add_chunks(bytes@),
            forall|i: int| n0 <= i < output@.len() ==> op_emittable(op_model(#[trigger] output@[i])),
        decreases total_len - processed,
    {
        let to_add = total_len - processed;
        let chunk_size = if to_add < MAX_INST_SIZE { to_add } else { MAX_INST_SIZE };
        let chunk = crate::reader::slice_to_vec(bytes.as_slice(), processed, processed + chunk_size);
        let ghost pre = models(output@).subrange(n0 as int, output@.len() as int);
        let ghost prefix = output@;
        output.push(Op::Add(Add { bytes: chunk }));
        proof {
            let rest = bytes@.subrange(processed as int, total_len as int);
            assert(rest.subrange(0, chunk_size as int) =~= bytes@.subrange(processed as int, processed + chunk_size));
            assert(rest.subrange(chunk_size as int, rest.len() as int) =~= bytes@.subrange(processed + chunk_size, total_len as int));
            assert(models(output@).subrange(n0 as int, output@.len() as int) =~= pre.push(OpModel::Add(rest.subrange(0, chunk_size as int))));
            assert(add_chunks(rest) == seq![OpModel::Add(rest.subrange(0, chunk_size as int))] + add_chunks(rest.subrange(chunk_size as int, rest.len() as int)));
            assert(pre.push(OpModel::Add(rest.subrange(0, chunk_size as int))) + add_chunks(rest.subrange(chunk_size as int, rest.len() as int))
                =~= pre + add_chunks(rest));
            assert(output@.subrange(0, n0 as int) =~= prefix.subrange(0, n0 as int));
        }
        processed = processed + chunk_size;
    }
    proof {
        assert(bytes@.subrange(total_len as int, total_len as int) =~= Seq::<u8>::empty());
        assert(models(output@).subrange(n0 as int, output@.len() as int) + Seq::<OpModel>::empty() =~= models(output@).subrange(n0 as int, output@.len() as int));
    }
}

/// Takes the bytes out of the Add at `i`, leaving an empty Add.
fn take_add(ops: &mut Vec<InnerOp>, i: usize) -> (r: Vec<u8>)
    requires
        i < old(ops)@.len(),
        old(ops)@[i as int] is Add,
    ensures
        final(ops)@.len() == old(ops)@.len(),
        forall|k: int| 0 <= k < old(ops)@.len() && k != i ==> final(ops)@[k] == old(ops)@[k],
        inner_model(final(ops)@[i as int]) == InnerModel::Add(Seq::empty()),
        inner_model(old(ops)@[i as int]) == InnerModel::Add(r@),
{
    let mut tmp = InnerOp::Add(Vec::new());
    std::mem::swap(&mut tmp, &mut ops[i]);
    proof {
        assert(inner_model(ops@[i as int]) == InnerModel::Add(Seq::<u8>::empty()));
    }
    match tmp {
        InnerOp::Add(v) => v,
        _ => Vec::new(),
    }
}

proof fn lemma_update_models(ops: Seq<InnerOp>, i: int, x: InnerOp)
    requires
        0 <= i < ops.len(),
    ensures
        inner_models(ops.update(i, x)) == inner_models(ops).update(i, inner_model(x)),
{
    assert(inner_models(ops.update(i, x)) =~= inner_models(ops).update(i, inner_model(x)));
}

/// Joins each group of adjacent Adds into one (see `join_adds_spec`).
pub fn join_adjacent_adds(ops: &mut Vec<InnerOp>)
    ensures
        inner_models(final(ops)@) == join_adds_spec(inner_models(old(ops)@), 1),
{
    let mut i: usize = 1;
    while i < ops.len()
        invariant
            ops@.len() == old(ops)@.len(),
            1 <= i,
            join_adds_spec(inner_models(ops@), i as int) == join_adds_spec(inner_models(old(ops)@), 1),
        decreases ops@.len() - i,
    {
        let ghost m = inner_models(ops@);
        if ops[i - 1].is_add() && ops[i].is_add() && ops[i - 1].add_len() < MAX_INST_SIZE {
            let mut first = take_add(ops, i - 1);
            let mut second = take_add(ops, i);
            let ghost a = first@;
            let ghost b = second@;
            first.append(&mut second);
            ops.set(i - 1, InnerOp::Add(second));
            ops.set(i, InnerOp::Add(first));
            proof {
                assert(first@ == a + b);
                assert(second@ == Seq::<u8>::empty());
                assert(inner_models(ops@) =~= m.update(i - 1, InnerModel::Add(Seq::empty())).update(i as int, InnerModel::Add(a + b)));
            }
        }
        i = i + 1;
    }
}

/// Joins each group of adjacent Runs of one byte into one (see `join_runs_spec`).
pub fn join_adjacent_runs(ops: &mut Vec<InnerOp>)
    ensures
        inner_models(final(ops)@) == join_runs_spec(inner_models(old(ops)@), 1),
{
    let mut i: usize = 1;
    while i < ops.len()
        invariant
            ops@.len() == old(ops)@.len(),
            1 <= i,
            join_runs_spec(inner_models(ops@), i as int) == join_runs_spec(inner_models(old(ops)@), 1),
        decreases ops@.len() - i,
    {
        let ghost m = inner_models(ops@);
        let first = match &ops[i - 1] {
            InnerOp::Run { byte, len, output_start_pos } => Some((*byte, *len, *output_start_pos)),
            _ => None,
        };
        let second = match &ops[i] {
            InnerOp::Run { byte, len, output_start_pos } => Some((*byte, *len, *output_start_pos)),
            _ => None,
        };
        if let (Some((b1, l1, s1)), Some((b2, l2, s2))) = (first, second) {
            if b1 == b2 && l1 <= usize::MAX / 2 && l2 <= usize::MAX / 2 - l1 {
                let ghost o0 = ops@;
                ops.set(i - 1, InnerOp::Run { byte: b1, len: 0, output_start_pos: s1 });
                ops.set(i, InnerOp::Run { byte: b2, len: l1 + l2, output_start_pos: s1 });
                proof {
                    lemma_update_models(o0, i - 1, InnerOp::Run { byte: b1, len: 0, output_start_pos: s1 });
                    let o1 = o0.update(i - 1, InnerOp::Run { byte: b1, len: 0, output_start_pos: s1 });
                    lemma_update_models(o1, i as int, InnerOp::Run { byte: b2, len: (l1 + l2) as usize, output_start_pos: s1 });
                    assert(inner_models(ops@) =~= m.update(i - 1, InnerModel::Run { byte: b1, len: 0, start: s1 as int }).update(
                        i as int,
                        InnerModel::Run { byte: b2, len: (l1 + l2) as nat, start: s1 as int },
                    ));
                }
            }
        }
        i = i + 1;
    }
}

proof fn lemma_join_adds_shape(ops: Seq<InnerModel>, i: int)
    ensures
        join_adds_spec(ops, i).len() == ops.len(),
        forall|k: int| 0 <= k < ops.len() && !(ops[k] is Add) ==> join_adds_spec(ops, i)[k] == ops[k],
        forall|k: int| 0 <= k < ops.len() ==> (join_adds_spec(ops, i)[k] is Add <==> ops[k] is Add),
    decreases ops.len() - i,
{
    if !(i < 1 || i >= ops.len()) {
        match (ops[i - 1], ops[i]) {
            (InnerModel::Add(a), InnerModel::Add(b)) if a.len() < MAX_INST_SIZE => {
                let next = ops.update(i - 1, InnerModel::Add(Seq::empty())).update(i, InnerModel::Add(a + b));
                lemma_join_adds_shape(next, i + 1);
                assert forall|k: int| 0 <= k < ops.len() && !(ops[k] is Add) implies next[k] == ops[k] by {}
                assert forall|k: int| 0 <= k < ops.len() implies (next[k] is Add <==> ops[k] is Add) by {}
            },
            _ => {
                lemma_join_adds_shape(ops, i + 1);
            },
        }
    }
}

proof fn lemma_join_runs_shape(ops: Seq<InnerModel>, i: int)
    requires
        forall|k: int| 0 <= k < ops.len() && #[trigger] ops[k] is Run ==> ops[k]->len <= usize::MAX / 2,
    ensures
        join_runs_spec(ops, i).len() == ops.len(),
        forall|k: int| 0 <= k < ops.len() && #[trigger] join_runs_spec(ops, i)[k] is Run
            ==> join_runs_spec(ops, i)[k]->len <= usize::MAX / 2,
        forall|k: int| 0 <= k < ops.len() && !(ops[k] is Run) ==> join_runs_spec(ops, i)[k] == ops[k],
        forall|k: int| 0 <= k < ops.len() ==> (join_runs_spec(ops, i)[k] is Run <==> ops[k] is Run),
    decreases ops.len() - i,
{
    if !(i < 1 || i >= ops.len()) {
        match (ops[i - 1], ops[i]) {
            (InnerModel::Run { byte: b1, len: l1, start: s1 }, InnerModel::Run { byte: b2, len: l2, start: s2 }) => {
                if b1 == b2 && l1 + l2 <= usize::MAX / 2 {
                    let next = ops.update(i - 1, InnerModel::Run { byte: b1, len: 0, start: s1 }).update(
                        i,
                        InnerModel::Run { byte: b2, len: l1 + l2, start: s1 },
                    );
                    assert forall|k: int| 0 <= k < next.len() && #[trigger] next[k] is Run implies next[k]->len <= usize::MAX / 2 by {
                        if k != i - 1 && k != i {
                            assert(next[k] == ops[k]);
                        }
                    }
                    lemma_join_runs_shape(next, i + 1);
                    assert forall|k: int| 0 <= k < ops.len() && !(ops[k] is Run) implies next[k] == ops[k] by {}
                    assert forall|k: int| 0 <= k < ops.len() implies (next[k] is Run <==> ops[k] is Run) by {}
                } else {
                    lemma_join_runs_shape(ops, i + 1);
                }
            },
            _ => {
                lemma_join_runs_shape(ops, i + 1);
            },
        }
    }
}

/// Every operation of `cur` round-trips when those of its prefix `prev` round-trip and
/// those pushed after it are emittable.
proof fn lemma_roundtrips_extend(prev: Seq<Op<Add>>, cur: Seq<Op<Add>>)
    requires
        prev.len() <= cur.len(),
        cur.subrange(0, prev.len() as int) == prev,
        forall|i: int| 0 <= i < prev.len() ==> crate::reader::op_roundtrips(op_model(#[trigger] prev[i])),
        forall|i: int| prev.len() <= i < cur.len() ==> crate::reader::op_roundtrips(op_model(#[trigger] cur[i])),
    ensures
        forall|i: int| 0 <= i < cur.len() ==> crate::reader::op_roundtrips(op_model(#[trigger] cur[i])),
{
    assert forall|i: int| 0 <= i < cur.len() implies crate::reader::op_roundtrips(op_model(#[trigger] cur[i])) by {
        if i < prev.len() {
            assert(cur[i] == cur.subrange(0, prev.len() as int)[i]);
        }
    }
}

/// Every Copy copies at least one byte.
pub open spec fn copies_nonempty(ops: Seq<InnerModel>) -> bool {
    forall|k: int| 0 <= k < ops.len() ==> ((#[trigger] ops[k]) matches InnerModel::Copy(c) ==> c.len >= 1)
}

/// Joins adjacent Adds and Runs, then converts the operations to ones the format holds:
/// Adds split into MAX_INST_SIZE chunks (a single byte as a Run), Runs split into Runs of at
/// most MAX_RUN_LEN (long ones into three Runs and copies of them), empty ones dropped.
pub fn optimize_and_convert_ops(ops: Vec<InnerOp>) -> (r: Vec<Op<Add>>)
    requires
        forall|k: int| 0 <= k < ops@.len() ==> (#[trigger] ops@[k] matches InnerOp::Run { len, .. } ==> len <= usize::MAX / 4),
    ensures
        models(r@) == convert_spec(join_runs_spec(join_adds_spec(inner_models(ops@), 1), 1)),
        forall|i: int| 0 <= i < r@.len() ==> crate::reader::op_roundtrips(op_model(#[trigger] r@[i])),
        copies_nonempty(inner_models(ops@)) ==> forall|i: int| 0 <= i < r@.len() ==> op_emittable(op_model(#[trigger] r@[i])),
{
    let ghost o_in = ops@;
    let mut ops = ops;
    let ghost m0 = inner_models(ops@);
    join_adjacent_adds(&mut ops);
    proof {
        lemma_join_adds_shape(m0, 1);
    }
    let ghost m1 = inner_models(ops@);
    join_adjacent_runs(&mut ops);
    let ghost j = inner_models(ops@);
    proof {
        assert forall|k: int| 0 <= k < m1.len() && #[trigger] m1[k] is Run implies m1[k]->len <= usize::MAX / 2 by {
            assert(m1[k] == m0[k]);
            assert(m0[k] == inner_model(o_in[k]));
        }
        lemma_join_runs_shape(m1, 1);
        if copies_nonempty(inner_models(o_in)) {
            assert forall|k: int| 0 <= k < j.len() implies ((#[trigger] j[k]) matches InnerModel::Copy(c) ==> c.len >= 1) by {
                if j[k] is Copy {
                    assert(j[k] is Run <==> m1[k] is Run);
                    assert(!(m1[k] is Run));
                    assert(j[k] == m1[k]);
                    assert(m1[k] == m0[k]);
                    assert(m0[k] == inner_models(o_in)[k]);
                }
            }
        }
    }
    let ops_len = ops.len();
    let mut out_ops: Vec<Op<Add>> = Vec::new();
    let mut idx: usize = 0;
    proof {
        assert(models(out_ops@) =~= convert_spec(j.subrange(0, 0)));
    }
    while idx < ops_len
        invariant
            ops_len == ops@.len() == j.len(),
            idx <= ops_len,
            forall|k: int| idx <= k < ops_len ==> inner_model(#[trigger] ops@[k]) == j[k],
            forall|k: int| 0 <= k < j.len() && #[trigger] j[k] is Run ==> j[k]->len <= usize::MAX / 2,
            models(out_ops@) == convert_spec(j.subrange(0, idx as int)),
            forall|i: int| 0 <= i < out_ops@.len() ==> crate::reader::op_roundtrips(op_model(#[trigger] out_ops@[i])),
            copies_nonempty(inner_models(o_in)) ==> copies_nonempty(j),
            copies_nonempty(inner_models(o_in)) ==> forall|i: int| 0 <= i < out_ops@.len() ==> op_emittable(op_model(#[trigger] out_ops@[i])),
        decreases ops_len - idx,
    {
        let ghost prev = out_ops@;
        let ghost jk = j[idx as int];
        proof {
            assert(inner_model(ops@[idx as int]) == jk);
            assert(j.subrange(0, idx + 1).drop_last() =~= j.subrange(0, idx as int));
            assert(j.subrange(0, idx + 1).last() == jk);
        }
        if ops[idx].is_add() {
            let b = take_add(&mut ops, idx);
            make_add_ops(b, &mut out_ops);
            proof {
                assert forall|k: int| idx + 1 <= k < ops_len implies inner_model(#[trigger] ops@[k]) == j[k] by {}
            }
        } else {
            let piece = match &ops[idx] {
                InnerOp::Copy(c) => Some(*c),
                _ => None,
            };
            match piece {
                Some(c) => {
                    out_ops.push(Op::Copy(c));
                    proof {
                        assert(out_ops@.subrange(0, prev.len() as int) =~= prev);
                        assert(models(out_ops@).subrange(prev.len() as int, out_ops@.len() as int) =~= seq![OpModel::Copy(c)]);
                    }
                },
                None => {
                    let (byte, len, pos) = match &ops[idx] {
                        InnerOp::Run { byte, len, output_start_pos } => (*byte, *len, *output_start_pos),
                        _ => (0u8, 0usize, 0usize),
                    };
                    if len > 0 {
                        make_run_ops(byte, len, pos, &mut out_ops);
                    } else {
                        proof {
                            assert(out_ops@.subrange(0, prev.len() as int) =~= prev);
                            assert(models(out_ops@).subrange(prev.len() as int, out_ops@.len() as int) =~= Seq::<OpModel>::empty());
                        }
                    }
                },
            }
        }
        proof {
            lemma_roundtrips_extend(prev, out_ops@);
            lemma_models_extend(prev, out_ops@);
            if copies_nonempty(inner_models(o_in)) {
                assert forall|i: int| 0 <= i < out_ops@.len() implies op_emittable(op_model(#[trigger] out_ops@[i])) by {
                    if i < prev.len() {
                        assert(out_ops@[i] == out_ops@.subrange(0, prev.len() as int)[i]);
                    } else if jk is Copy {
                        assert(op_model(out_ops@[i]) == OpModel::Copy(jk->Copy_0));
                    }
                }
            }
        }
        idx = idx + 1;
    }
    proof {
        assert(j.subrange(0, ops_len as int) =~= j);
    }
    out_ops
}

/// The transcoder's operations for sparse operations: Runs keep where they start.
pub open spec fn from_sparse(sp: Seq<(u64, OpModel)>) -> Seq<InnerModel> {
    sp.map_values(|x: (u64, OpModel)| match x.1 {
        OpModel::Add(b) => InnerModel::Add(b),
        OpModel::Copy(c) => InnerModel::Copy(c),
        OpModel::Run(r) => InnerModel::Run { byte: r.byte, len: r.len as nat, start: (x.0 as usize) as int },
    })
}

/// The operations of a patch, each with where its output starts, as the transcoder holds them.
fn read_ops_from_patch(input: &[u8]) -> (r: Result<Vec<InnerOp>, SmdiffError>)
    ensures
        match patch_ops_spec(input@, 0) {
            Err(e) => r == Err::<Vec<InnerOp>, SmdiffError>(e),
            Ok(ops) => match extract_spec(ops) {
                None => r == Err::<Vec<InnerOp>, SmdiffError>(SmdiffError::InvalidData),
                Some((sp, _, _)) => r matches Ok(v) && inner_models(v@) == from_sparse(sp),
            },
        },
{
    let (sparse, _) = extract_patch_instructions(input)?;
    let ghost sp = sparse_models(sparse@);
    let mut inners: Vec<InnerOp> = Vec::new();
    let mut i: usize = 0;
    while i < sparse.len()
        invariant
            i <= sparse@.len(),
            sp == sparse_models(sparse@),
            inner_models(inners@) == from_sparse(sp.subrange(0, i as int)),
        decreases sparse@.len() - i,
    {
        let (out_addr, op) = &sparse[i];
        let inner = match op {
            Op::Add(a) => {
                proof {
                    assert(a.bytes@.subrange(0, a.bytes@.len() as int) =~= a.bytes@);
                }
                InnerOp::Add(crate::reader::slice_to_vec(a.bytes.as_slice(), 0, a.bytes.len()))
            },
            Op::Copy(c) => InnerOp::Copy(*c),
            Op::Run(r) => InnerOp::Run { byte: r.byte, len: r.len as usize, output_start_pos: *out_addr as usize },
        };
        let ghost prev = inners@;
        inners.push(inner);
        proof {
            let spi = sp.subrange(0, i + 1);
            assert(sp[i as int] == (*out_addr, op_model(*op)));
            assert(spi[i as int] == sp[i as int]);
            assert(inner_model(inner) == from_sparse(spi)[i as int]);
            assert(spi.drop_last() =~= sp.subrange(0, i as int));
            assert(from_sparse(spi) =~= from_sparse(sp.subrange(0, i as int)).push(inner_model(inner)));
            assert(inner_models(inners@) =~= inner_models(prev).push(inner_model(inner)));
            assert(inner_models(inners@) =~= from_sparse(spi));
        }
        i = i + 1;
    }
    proof {
        assert(sp.subrange(0, sparse@.len() as int) =~= sp);
    }
    Ok(inners)
}

/// Transcodes a patch from one format to another.
/// This function also attempts to optimize the patch operations while it is transcoding:
/// * It groups adjacent Add operations together, and joins adjacent Run operations.
/// * It then makes sure that Add operations are no larger than the maximum instruction size.
/// * The Run operations are also optimized to be no larger than the maximum run length.
/// * If a Run is long enough, it is encoded as Runs followed by progressively larger Copy
///   operations of itself, until the whole run length is covered.
///
/// * `input` - The input patch to transcode.
/// * `format` - The format to transcode the patch to.
/// * `sec_comp` - The secondary compression to use, if any.
/// * `output_segment_size` - The size of the output segments.
///
/// Errors where the input patch cannot be read, and where zstd or brotli refuse a section.
pub fn transcode(
    input: &[u8],
    format: Format,
    sec_comp: Option<SecondaryCompression>,
    output_segment_size: usize,
) -> (r: Result<Vec<u8>, SmdiffError>)
    requires
        sec_comp_buildable(sec_comp),
    ensures
        patch_ops_spec(input@, 0) matches Err(e) ==> r == Err::<Vec<u8>, SmdiffError>(e),
        patch_ops_spec(input@, 0) matches Ok(ops) && extract_spec(ops) is None ==> r == Err::<Vec<u8>, SmdiffError>(SmdiffError::InvalidData),
        r matches Ok(bytes) ==> patch_ops_spec(input@, 0) matches Ok(ops) && extract_spec(ops) matches Some((sp, _, _))
            && exists|secs: Seq<(SectionHeader, Seq<OpModel>, Seq<u8>)>| {
                &&& #[trigger] encoded_as(bytes@, secs, sec_comp, format, clamp_section_size(output_segment_size))
                &&& written_ops(secs) == transcoded_ops(sp)
            },
        r is Err && patch_ops_spec(input@, 0) is Ok && extract_spec(patch_ops_spec(input@, 0)->Ok_0) is Some ==>
            r == Err::<Vec<u8>, SmdiffError>(SmdiffError::Compression) || r == Err::<Vec<u8>, SmdiffError>(SmdiffError::InvalidData),
        r == Err::<Vec<u8>, SmdiffError>(SmdiffError::Compression) && patch_ops_spec(input@, 0) is Ok
            && extract_spec(patch_ops_spec(input@, 0)->Ok_0) is Some ==> ({
            let sp = extract_spec(patch_ops_spec(input@, 0)->Ok_0)->Some_0.0;
            exists|a: int, b: int| 0 <= a <= b <= transcoded_ops(sp).len()
                && #[trigger] compression_fails(sec_comp, ops_bytes(transcoded_ops(sp).subrange(a, b), format))
        }),
        (sec_comp is None || sec_comp matches Some(SecondaryCompression::Smdiff(_))) && patch_ops_spec(input@, 0) is Ok
            && extract_spec(patch_ops_spec(input@, 0)->Ok_0) is Some
            && (forall|k: int| 0 <= k < extract_spec(patch_ops_spec(input@, 0)->Ok_0)->Some_0.0.len()
                ==> crate::common::op_len((#[trigger] extract_spec(patch_ops_spec(input@, 0)->Ok_0)->Some_0.0[k]).1) >= 1)
            ==> r is Ok,
{
    let inner = read_ops_from_patch(input)?;
    let ghost sp = extract_spec(patch_ops_spec(input@, 0)->Ok_0)->Some_0.0;
    proof {
        assert(inner_models(inner@) == from_sparse(sp));
        assert forall|k: int| 0 <= k < inner@.len() implies (#[trigger] inner@[k] matches InnerOp::Run { len, .. } ==> len <= usize::MAX / 4) by {
            assert(inner_models(inner@)[k] == inner_model(inner@[k]));
            assert(from_sparse(sp)[k] == inner_model(inner@[k]));
        }
    }
    let ghost iv = inner@;
    let res = write_transcoded(inner, format, sec_comp, output_segment_size);
    proof {
        if res is Ok {
            let secs = choose|secs: Seq<(SectionHeader, Seq<OpModel>, Seq<u8>)>| {
                &&& #[trigger] encoded_as(res->Ok_0@, secs, sec_comp, format, clamp_section_size(output_segment_size))
                &&& written_ops(secs) == transcoded_inner(iv)
            };
            assert(transcoded_inner(iv) == transcoded_ops(sp));
            assert(encoded_as(res->Ok_0@, secs, sec_comp, format, clamp_section_size(output_segment_size)));
        }
        assert(transcoded_inner(iv) == transcoded_ops(sp));
        if forall|k: int| 0 <= k < sp.len() ==> crate::common::op_len((#[trigger] sp[k]).1) >= 1 {
            assert forall|k: int| 0 <= k < inner_models(iv).len() implies ((#[trigger] inner_models(iv)[k]) matches InnerModel::Copy(c) ==> c.len >= 1) by {
                assert(inner_models(iv)[k] == from_sparse(sp)[k]);
                assert(crate::common::op_len(sp[k].1) >= 1);
            }
        }
    }
    res
}

/// The operations the transcoder writes for `inner`.
pub open spec fn transcoded_inner(inner: Seq<InnerOp>) -> Seq<OpModel> {
    convert_spec(join_runs_spec(join_adds_spec(inner_models(inner), 1), 1))
}

/// Tidies the operations and writes them as sections (see `transcode`).
fn write_transcoded(
    inner: Vec<InnerOp>,
    format: Format,
    sec_comp: Option<SecondaryCompression>,
    output_segment_size: usize,
) -> (r: Result<Vec<u8>, SmdiffError>)
    requires
        sec_comp_buildable(sec_comp),
        forall|k: int| 0 <= k < inner@.len() ==> (#[trigger] inner@[k] matches InnerOp::Run { len, .. } ==> len <= usize::MAX / 4),
    ensures
        r is Ok ==> exists|secs: Seq<(SectionHeader, Seq<OpModel>, Seq<u8>)>| {
            &&& #[trigger] encoded_as(r->Ok_0@, secs, sec_comp, format, clamp_section_size(output_segment_size))
            &&& written_ops(secs) == transcoded_inner(inner@)
        },
        r is Err ==> r == Err::<Vec<u8>, SmdiffError>(SmdiffError::Compression) || r == Err::<Vec<u8>, SmdiffError>(SmdiffError::InvalidData),
        r == Err::<Vec<u8>, SmdiffError>(SmdiffError::Compression) ==> exists|a: int, b: int| 0 <= a <= b <= transcoded_inner(inner@).len()
            && #[trigger] compression_fails(sec_comp, ops_bytes(transcoded_inner(inner@).subrange(a, b), format)),
        copies_nonempty(inner_models(inner@)) && (sec_comp is None || sec_comp matches Some(SecondaryCompression::Smdiff(_))) ==> r is Ok,
{
    let ghost im = inner_models(inner@);
    let ghost iv = inner@;
    let ops = optimize_and_convert_ops(inner);
    let mut writer: Vec<u8> = Vec::new();
    proof {
        if copies_nonempty(im) {
            assert forall|i: int| 0 <= i < models(ops@).len() implies op_emittable(#[trigger] models(ops@)[i]) by {
                assert(models(ops@)[i] == op_model(ops@[i]));
            }
            assert(crate::encoder::section::all_emittable(models(ops@)));
        }
        assert forall|i: int| 0 <= i < ops@.len() implies crate::writer::op_writable(op_model(#[trigger] ops@[i])) by {
            assert(crate::reader::op_roundtrips(op_model(ops@[i])));
        }
        assert(crate::encoder::section::all_roundtrip(ops@));
    }
    match write_sections(ops.as_slice(), output_segment_size, format, &sec_comp, &mut writer) {
        Ok(()) => {},
        Err(e) => {
            proof {
                if e == SmdiffError::Compression {
                    let (a, b) = choose|a: int, b: int| 0 <= a <= b <= ops@.len()
                        && #[trigger] compression_fails(sec_comp, ops_bytes(models(ops@).subrange(a, b), format));
                    assert(models(ops@) == transcoded_inner(iv));
                    assert(compression_fails(sec_comp, ops_bytes(transcoded_inner(iv).subrange(a, b), format)));
                }
            }
            return Err(e);
        },
    }
    let ghost secs = choose|secs: Seq<(SectionHeader, Seq<OpModel>, Seq<u8>)>| {
        &&& writer@ == Seq::<u8>::empty() + written_bytes(secs)
        &&& #[trigger] encoded_as(written_bytes(secs), secs, sec_comp, format, clamp_section_size(output_segment_size))
        &&& written_ops(secs) == models(ops@)
    };
    proof {
        assert(writer@ =~= written_bytes(secs));
    }
    let res: Result<Vec<u8>, SmdiffError> = Ok(writer);
    proof {
        assert(res->Ok_0@ == written_bytes(secs));
        assert(encoded_as(res->Ok_0@, secs, sec_comp, format, clamp_section_size(output_segment_size)));
        assert(written_ops(secs) == transcoded_inner(inner@));
    }
    res
}

/// The operations a transcoded patch holds for the sparse operations of its input.
pub open spec fn transcoded_ops(sp: Seq<(u64, OpModel)>) -> Seq<OpModel> {
    convert_spec(join_runs_spec(join_adds_spec(from_sparse(sp), 1), 1))
}

} // verus!
