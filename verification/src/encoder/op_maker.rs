//! Turns the encoder's matches into SMDIFF operations: overlapping matches are
//! trimmed, gaps become Add operations, and long matches and runs are split into
//! operations the format can hold.
use vstd::prelude::*;
use crate::common::{models, op_len, op_model, AddOp, CopySrc, Op, OpModel, Run, MAX_INST_SIZE, MAX_RUN_LEN};
use crate::decoder::{apply_op_spec, apply_ops_spec, lemma_apply_concat};
use crate::reader::op_roundtrips;
use crate::encoder::inner::{inner_ops_ok, inner_valid, op_end, op_length, op_pos, InnerOp};

verus! {

/// An Add operation whose bytes are borrowed from the target.
#[derive(Copy, Clone, Debug, PartialEq, Eq)]
pub struct AddRef<'a> {
    pub bytes: &'a [u8],
}

impl<'a> AddOp for AddRef<'a> {
    open spec fn add_bytes(&self) -> Seq<u8> {
        self.bytes@
    }

    fn bytes(&self) -> (r: &[u8]) {
        self.bytes
    }
}

/// Applying one operation.
pub proof fn lemma_apply_one(out: Seq<u8>, src: Option<Seq<u8>>, op: OpModel)
    ensures
        apply_ops_spec(out, src, seq![op]) == apply_op_spec(out, src, op),
{
    reveal_with_fuel(apply_ops_spec, 2);
    assert(seq![op].drop_last() =~= Seq::<OpModel>::empty());
    assert(seq![op].last() == op);
}

/// Applying what was pushed after `pre` continues from where `pre` left off.
proof fn lemma_apply_push(out: Seq<u8>, src: Option<Seq<u8>>, pre: Seq<OpModel>, op: OpModel)
    ensures
        apply_ops_spec(out, src, pre.push(op)) == match apply_ops_spec(out, src, pre) {
            Err(e) => Err(e),
            Ok(o) => apply_op_spec(o, src, op),
        },
{
    assert(pre.push(op).drop_last() =~= pre);
}

/// An operation the format carries faithfully and that produces at least one byte.
pub open spec fn op_emittable(op: OpModel) -> bool {
    op_roundtrips(op) && op_len(op) >= 1
}

/// The new operations, appended to `output` past `old_len`, add `bytes` to any output.
pub open spec fn adds_bytes(ops: Seq<OpModel>, bytes: Seq<u8>) -> bool {
    forall|o: Seq<u8>, s: Option<Seq<u8>>| #[trigger] apply_ops_spec(o, s, ops) == Ok::<Seq<u8>, crate::common::SmdiffError>(o + bytes)
}

/// Bytes as Add operations of at most MAX_INST_SIZE bytes.
pub open spec fn add_chunks(b: Seq<u8>) -> Seq<OpModel>
    decreases b.len(),
{
    if b.len() == 0 {
        Seq::empty()
    } else {
        let c = if b.len() < MAX_INST_SIZE { b.len() as int } else { MAX_INST_SIZE as int };
        seq![OpModel::Add(b.subrange(0, c))] + add_chunks(b.subrange(c, b.len() as int))
    }
}

/// The operations for Add bytes: none for no bytes, a Run for a single byte, else chunks.
pub open spec fn add_ops_spec(b: Seq<u8>) -> Seq<OpModel> {
    if b.len() == 1 {
        seq![OpModel::Run(Run { len: 1, byte: b[0] })]
    } else {
        add_chunks(b)
    }
}

/// Emits `bytes` as Add operations of at most MAX_INST_SIZE bytes (a single byte as a Run).
pub fn make_add_ops<'a>(bytes: &'a [u8], output: &mut Vec<Op<AddRef<'a>>>)
    ensures
        final(output)@.len() >= old(output)@.len(),
        final(output)@.subrange(0, old(output)@.len() as int) == old(output)@,
        adds_bytes(models(final(output)@).subrange(old(output)@.len() as int, final(output)@.len() as int), bytes@),
        models(final(output)@).subrange(old(output)@.len() as int, final(output)@.len() as int) == add_ops_spec(bytes@),
        forall|i: int| old(output)@.len() <= i < final(output)@.len() ==> op_emittable(op_model(#[trigger] final(output)@[i])),
{
    let ghost n0 = output@.len();
    let total_len = bytes.len();
    if total_len == 1 {
        output.push(Op::Run(Run { len: 1, byte: bytes[0] }));
        proof {
            let new_ops = models(output@).subrange(n0 as int, output@.len() as int);
            assert(new_ops =~= seq![OpModel::Run(Run { len: 1, byte: bytes@[0] })]);
            assert forall|o: Seq<u8>, s: Option<Seq<u8>>| #[trigger] apply_ops_spec(o, s, new_ops) == Ok::<Seq<u8>, crate::common::SmdiffError>(o + bytes@) by {
                lemma_apply_one(o, s, OpModel::Run(Run { len: 1, byte: bytes@[0] }));
                assert(Seq::new(1, |i: int| bytes@[0]) =~= bytes@);
            }
            assert(output@.subrange(0, n0 as int) =~= old(output)@);
        }
        return;
    }
    let mut processed: usize = 0;
    proof {
        assert(bytes@.subrange(0, bytes@.len() as int) =~= bytes@);
        assert(models(output@).subrange(n0 as int, output@.len() as int) =~= Seq::<OpModel>::empty());
        assert forall|o: Seq<u8>, s: Option<Seq<u8>>| #[trigger] apply_ops_spec(o, s, Seq::<OpModel>::empty()) == Ok::<Seq<u8>, crate::common::SmdiffError>(o + bytes@.subrange(0, 0)) by {
            assert(o + bytes@.subrange(0, 0) =~= o);
        }
    }
    while processed < total_len
        invariant
            processed <= total_len == bytes@.len(),
            output@.len() >= n0,
            n0 == old(output)@.len(),
            output@.subrange(0, n0 as int) == old(output)@,
            adds_bytes(models(output@).subrange(n0 as int, output@.len() as int), bytes@.subrange(0, processed as int)),
            total_len != 1,
            models(output@).subrange(n0 as int, output@.len() as int) + add_chunks(bytes@.subrange(processed as int, total_len as int))
                == add_chunks(bytes@),
            forall|i: int| n0 <= i < output@.len() ==> op_emittable(op_model(#[trigger] output@[i])),
        decreases total_len - processed,
    {
        let to_add = total_len - processed;
        let chunk_size = if to_add < MAX_INST_SIZE { to_add } else { MAX_INST_SIZE };
        let op = AddRef { bytes: &bytes[processed..processed + chunk_size] };
        let ghost pre = models(output@).subrange(n0 as int, output@.len() as int);
        let ghost prefix = output@;
        output.push(Op::Add(op));
        proof {
            let chunk = bytes@.subrange(processed as int, processed + chunk_size);
            assert(op.bytes@ == chunk);
            assert(models(output@).subrange(n0 as int, output@.len() as int) =~= pre.push(OpModel::Add(chunk)));
            assert forall|o: Seq<u8>, s: Option<Seq<u8>>| #[trigger] apply_ops_spec(o, s, pre.push(OpModel::Add(chunk)))
                == Ok::<Seq<u8>, crate::common::SmdiffError>(o + bytes@.subrange(0, processed + chunk_size)) by {
                lemma_apply_push(o, s, pre, OpModel::Add(chunk));
                assert(apply_ops_spec(o, s, pre) == Ok::<Seq<u8>, crate::common::SmdiffError>(o + bytes@.subrange(0, processed as int)));
                assert(o + bytes@.subrange(0, processed as int) + chunk =~= o + bytes@.subrange(0, processed + chunk_size));
            }
            assert(output@.subrange(0, n0 as int) =~= prefix.subrange(0, n0 as int));
            let rest = bytes@.subrange(processed as int, total_len as int);
            assert(rest.subrange(0, chunk_size as int) =~= chunk);
            assert(rest.subrange(chunk_size as int, rest.len() as int) =~= bytes@.subrange(processed + chunk_size, total_len as int));
            assert(add_chunks(rest) == seq![OpModel::Add(chunk)] + add_chunks(rest.subrange(chunk_size as int, rest.len() as int)));
            assert(pre.push(OpModel::Add(chunk)) + add_chunks(rest.subrange(chunk_size as int, rest.len() as int)) =~= pre + add_chunks(rest));
        }
        processed = processed + chunk_size;
    }
    proof {
        assert(bytes@.subrange(0, total_len as int) =~= bytes@);
        assert(bytes@.subrange(total_len as int, total_len as int) =~= Seq::<u8>::empty());
        assert(models(output@).subrange(n0 as int, output@.len() as int) + Seq::<OpModel>::empty() =~= models(output@).subrange(n0 as int, output@.len() as int));
    }
}


/// The copy operations for `len` bytes from `addr` on, in chunks of at most MAX_INST_SIZE.
pub open spec fn copy_chunks(src: CopySrc, addr: int, len: int) -> Seq<OpModel>
    decreases len,
{
    if len <= 0 {
        Seq::empty()
    } else {
        let c = if len < MAX_INST_SIZE { len } else { MAX_INST_SIZE as int };
        seq![OpModel::Copy(crate::common::Copy { src, addr: addr as u64, len: c as u16 })] + copy_chunks(src, addr + c, len - c)
    }
}

/// The copy operations reproduce the copied range: from the source, or from the output
/// written before them.
pub open spec fn copies_bytes(ops: Seq<OpModel>, src: CopySrc, start: int, len: int) -> bool {
    match src {
        CopySrc::Dict => forall|o: Seq<u8>, ss: Seq<u8>| start + len <= ss.len() ==>
            #[trigger] apply_ops_spec(o, Some(ss), ops) == Ok::<Seq<u8>, crate::common::SmdiffError>(o + ss.subrange(start, start + len)),
        CopySrc::Output => forall|o: Seq<u8>, s: Option<Seq<u8>>| start + len <= o.len() ==>
            #[trigger] apply_ops_spec(o, s, ops) == Ok::<Seq<u8>, crate::common::SmdiffError>(o + o.subrange(start, start + len)),
    }
}

proof fn lemma_copy_chunks_split(src: CopySrc, addr: int, len: int, c: int)
    requires
        0 < len,
        c == (if len < MAX_INST_SIZE { len } else { MAX_INST_SIZE as int }),
    ensures
        copy_chunks(src, addr, len) == seq![OpModel::Copy(crate::common::Copy { src, addr: addr as u64, len: c as u16 })] + copy_chunks(src, addr + c, len - c),
{
}

/// Copies in chunks reproduce the copied range: from the source, or from the output written
/// before them.
pub proof fn lemma_copy_chunks_bytes(src: CopySrc, start: int, len: int)
    requires
        0 <= start,
        0 <= len,
        start + len <= u64::MAX,
    ensures
        copies_bytes(copy_chunks(src, start, len), src, start, len),
    decreases len,
{
    if len == 0 {
        lemma_copies_empty(src, start);
    } else {
        let c = if len < MAX_INST_SIZE { len } else { MAX_INST_SIZE as int };
        let op = OpModel::Copy(crate::common::Copy { src, addr: start as u64, len: c as u16 });
        lemma_copy_chunks_split(src, start, len, c);
        lemma_copy_chunks_bytes(src, start + c, len - c);
        let rest = copy_chunks(src, start + c, len - c);
        assert(start as u64 == start);
        assert(c as u16 == c);
        match src {
            CopySrc::Dict => {
                assert forall|o: Seq<u8>, ss: Seq<u8>| start + len <= ss.len() implies
                    #[trigger] apply_ops_spec(o, Some(ss), copy_chunks(src, start, len)) == Ok::<Seq<u8>, crate::common::SmdiffError>(o + ss.subrange(start, start + len)) by {
                    lemma_apply_concat(o, Some(ss), seq![op], rest);
                    lemma_apply_one(o, Some(ss), op);
                    let o1 = o + ss.subrange(start, start + c);
                    assert(apply_ops_spec(o1, Some(ss), rest) == Ok::<Seq<u8>, crate::common::SmdiffError>(o1 + ss.subrange(start + c, start + len)));
                    assert(o1 + ss.subrange(start + c, start + len) =~= o + ss.subrange(start, start + len));
                }
            },
            CopySrc::Output => {
                assert forall|o: Seq<u8>, s: Option<Seq<u8>>| start + len <= o.len() implies
                    #[trigger] apply_ops_spec(o, s, copy_chunks(src, start, len)) == Ok::<Seq<u8>, crate::common::SmdiffError>(o + o.subrange(start, start + len)) by {
                    lemma_apply_concat(o, s, seq![op], rest);
                    lemma_apply_one(o, s, op);
                    let o1 = o + o.subrange(start, start + c);
                    assert(apply_ops_spec(o1, s, rest) == Ok::<Seq<u8>, crate::common::SmdiffError>(o1 + o1.subrange(start + c, start + len)));
                    assert(o1.subrange(start + c, start + len) =~= o.subrange(start + c, start + len));
                    assert(o1 + o1.subrange(start + c, start + len) =~= o + o.subrange(start, start + len));
                }
            },
        }
    }
}

/// Emits Copy operations for `len` bytes starting at `start` in `src`, in chunks of at most
/// MAX_INST_SIZE bytes.
pub fn make_copy_ops<'a>(src: CopySrc, start: usize, len: usize, output: &mut Vec<Op<AddRef<'a>>>)
    requires
        start + len <= u64::MAX,
    ensures
        final(output)@.len() >= old(output)@.len(),
        final(output)@.subrange(0, old(output)@.len() as int) == old(output)@,
        models(final(output)@).subrange(old(output)@.len() as int, final(output)@.len() as int) == copy_chunks(src, start as int, len as int),
        copies_bytes(copy_chunks(src, start as int, len as int), src, start as int, len as int),
        forall|i: int| old(output)@.len() <= i < final(output)@.len() ==> op_emittable(op_model(#[trigger] final(output)@[i])),
{
    let ghost n0 = output@.len();
    let mut processed: usize = 0;
    let mut addr: u64 = start as u64;
    proof {
        assert(models(output@).subrange(n0 as int, output@.len() as int) + copy_chunks(src, start as int, len as int) =~= copy_chunks(src, start as int, len as int));
        lemma_copies_empty(src, start as int);
    }
    while processed < len
        invariant
            processed <= len,
            addr == start + processed,
            start + len <= u64::MAX,
            output@.len() >= n0,
            n0 == old(output)@.len(),
            output@.subrange(0, n0 as int) == old(output)@,
            models(output@).subrange(n0 as int, output@.len() as int) + copy_chunks(src, addr as int, len - processed) == copy_chunks(src, start as int, len as int),
            copies_bytes(models(output@).subrange(n0 as int, output@.len() as int), src, start as int, processed as int),
            forall|i: int| n0 <= i < output@.len() ==> op_emittable(op_model(#[trigger] output@[i])),
        decreases len - processed,
    {
        let remaining = len - processed;
        let chunk_size = if MAX_INST_SIZE < remaining { MAX_INST_SIZE } else { remaining };
        let ghost pre = models(output@).subrange(n0 as int, output@.len() as int);
        let ghost prefix = output@;
        let op = Op::Copy(crate::common::Copy { src, addr, len: chunk_size as u16 });
        output.push(op);
        let ghost cop = OpModel::Copy(crate::common::Copy { src, addr, len: chunk_size as u16 });
        proof {
            lemma_copy_chunks_split(src, addr as int, remaining as int, chunk_size as int);
            assert(models(output@).subrange(n0 as int, output@.len() as int) =~= pre.push(cop));
            assert(pre.push(cop) + copy_chunks(src, addr + chunk_size, remaining - chunk_size) =~= pre + (seq![cop] + copy_chunks(src, addr + chunk_size, remaining - chunk_size)));
            lemma_copies_step(pre, src, start as int, processed as int, chunk_size as int);
            assert(output@.subrange(0, n0 as int) =~= prefix.subrange(0, n0 as int));
        }
        addr = addr + chunk_size as u64;
        processed = processed + chunk_size;
    }
    proof {
        assert(copy_chunks(src, addr as int, 0) =~= Seq::<OpModel>::empty());
        assert(models(output@).subrange(n0 as int, output@.len() as int) + Seq::<OpModel>::empty() =~= models(output@).subrange(n0 as int, output@.len() as int));
    }
}

proof fn lemma_copies_empty(src: CopySrc, start: int)
    requires
        0 <= start,
    ensures
        copies_bytes(Seq::empty(), src, start, 0),
{
    match src {
        CopySrc::Dict => {
            assert forall|o: Seq<u8>, ss: Seq<u8>| start + 0 <= ss.len() implies
                #[trigger] apply_ops_spec(o, Some(ss), Seq::empty()) == Ok::<Seq<u8>, crate::common::SmdiffError>(o + ss.subrange(start, start + 0)) by {
                assert(o + ss.subrange(start, start) =~= o);
            }
        },
        CopySrc::Output => {
            assert forall|o: Seq<u8>, s: Option<Seq<u8>>| start + 0 <= o.len() implies
                #[trigger] apply_ops_spec(o, s, Seq::empty()) == Ok::<Seq<u8>, crate::common::SmdiffError>(o + o.subrange(start, start + 0)) by {
                assert(o + o.subrange(start, start) =~= o);
            }
        },
    }
}

proof fn lemma_copies_step(pre: Seq<OpModel>, src: CopySrc, start: int, processed: int, c: int)
    requires
        0 <= processed,
        0 < c <= MAX_INST_SIZE,
        start >= 0,
        start + processed + c <= u64::MAX,
        copies_bytes(pre, src, start, processed),
    ensures
        copies_bytes(pre.push(OpModel::Copy(crate::common::Copy { src, addr: (start + processed) as u64, len: c as u16 })), src, start, processed + c),
{
    let cop = OpModel::Copy(crate::common::Copy { src, addr: (start + processed) as u64, len: c as u16 });
    match src {
        CopySrc::Dict => {
            assert forall|o: Seq<u8>, ss: Seq<u8>| start + processed + c <= ss.len() implies
                #[trigger] apply_ops_spec(o, Some(ss), pre.push(cop)) == Ok::<Seq<u8>, crate::common::SmdiffError>(o + ss.subrange(start, start + processed + c)) by {
                lemma_apply_push(o, Some(ss), pre, cop);
                assert(apply_ops_spec(o, Some(ss), pre) == Ok::<Seq<u8>, crate::common::SmdiffError>(o + ss.subrange(start, start + processed)));
                assert(o + ss.subrange(start, start + processed) + ss.subrange(start + processed, start + processed + c)
                    =~= o + ss.subrange(start, start + processed + c));
            }
        },
        CopySrc::Output => {
            assert forall|o: Seq<u8>, s: Option<Seq<u8>>| start + processed + c <= o.len() implies
                #[trigger] apply_ops_spec(o, s, pre.push(cop)) == Ok::<Seq<u8>, crate::common::SmdiffError>(o + o.subrange(start, start + processed + c)) by {
                lemma_apply_push(o, s, pre, cop);
                assert(apply_ops_spec(o, s, pre) == Ok::<Seq<u8>, crate::common::SmdiffError>(o + o.subrange(start, start + processed)));
                let o1 = o + o.subrange(start, start + processed);
                assert(o1.subrange(start + processed, start + processed + c) =~= o.subrange(start + processed, start + processed + c));
                assert(o1 + o.subrange(start + processed, start + processed + c) =~= o + o.subrange(start, start + processed + c));
            }
        },
    }
}


/// The models of the operations from index `n0` on.
pub open spec fn tail_models<A: AddOp>(out: Seq<Op<A>>, n0: int) -> Seq<OpModel> {
    models(out).subrange(n0, out.len() as int)
}

/// Runs of `byte` totalling `len` bytes, each of at most MAX_RUN_LEN.
pub open spec fn run_chunks(byte: u8, len: int) -> Seq<OpModel>
    decreases len,
{
    if len <= 0 {
        Seq::empty()
    } else {
        let c = if len < MAX_RUN_LEN { len } else { MAX_RUN_LEN as int };
        seq![OpModel::Run(Run { byte, len: c as u8 })] + run_chunks(byte, len - c)
    }
}

/// Output copies of the run starting at `start`, for `remaining` more bytes, each at most
/// MAX_INST_SIZE and at most the run's length so far (`max_copy`), which then grows by it.
pub open spec fn run_copies(start: u64, remaining: int, max_copy: int) -> Seq<OpModel>
    decreases remaining,
{
    if remaining <= 0 || max_copy <= 0 {
        Seq::empty()
    } else {
        let c0 = if max_copy < remaining { max_copy } else { remaining };
        let c = if c0 < MAX_INST_SIZE { c0 } else { MAX_INST_SIZE as int };
        seq![OpModel::Copy(crate::common::Copy { src: CopySrc::Output, addr: start, len: c as u16 })]
            + run_copies(start, remaining - c, max_copy + c)
    }
}

/// Below this length a run is written as Run operations only.
pub const RUN_LIMIT: usize = 372;
/// The bytes of the three leading Runs of a long run.
pub const COPY_LIMIT: usize = 186;

/// The operations for a run of `len` bytes of `byte` starting at output position `start`:
/// Runs of at most MAX_RUN_LEN; from RUN_LIMIT bytes on, three full Runs and then copies of
/// the run itself.
pub open spec fn run_ops_spec(byte: u8, len: int, start: u64) -> Seq<OpModel> {
    if len < RUN_LIMIT {
        run_chunks(byte, len)
    } else {
        seq![
            OpModel::Run(Run { byte, len: MAX_RUN_LEN }),
            OpModel::Run(Run { byte, len: MAX_RUN_LEN }),
            OpModel::Run(Run { byte, len: MAX_RUN_LEN }),
        ] + run_copies(start, len - COPY_LIMIT, COPY_LIMIT as int)
    }
}

/// `n` copies of `byte`.
pub open spec fn repeat(byte: u8, n: int) -> Seq<u8> {
    Seq::new(n as nat, |i: int| byte)
}

/// Applied to an output of `start` bytes, the operations append `len` copies of `byte`.
pub open spec fn runs_bytes(ops: Seq<OpModel>, byte: u8, len: int, start: int) -> bool {
    forall|o: Seq<u8>, s: Option<Seq<u8>>| o.len() == start ==>
        #[trigger] apply_ops_spec(o, s, ops) == Ok::<Seq<u8>, crate::common::SmdiffError>(o + repeat(byte, len))
}

/// Emits the operations for a run of `len` bytes of `byte` that starts at output position
/// `run_start_pos` (see `run_ops_spec`).
pub fn make_run_ops<A: AddOp>(byte: u8, len: usize, run_start_pos: usize, output: &mut Vec<Op<A>>)
    requires
        len <= usize::MAX / 2,
        run_start_pos <= u64::MAX,
    ensures
        final(output)@.len() >= old(output)@.len(),
        final(output)@.subrange(0, old(output)@.len() as int) == old(output)@,
        models(final(output)@).subrange(old(output)@.len() as int, final(output)@.len() as int) == run_ops_spec(byte, len as int, run_start_pos as u64),
        runs_bytes(run_ops_spec(byte, len as int, run_start_pos as u64), byte, len as int, run_start_pos as int),
        forall|i: int| old(output)@.len() <= i < final(output)@.len() ==> op_emittable(op_model(#[trigger] final(output)@[i])),
{
    let ghost n0 = output@.len();
    proof {
        assert(tail_models(output@, n0 as int) =~= Seq::<OpModel>::empty());
        assert forall|o: Seq<u8>, s: Option<Seq<u8>>| o.len() == run_start_pos implies
            #[trigger] apply_ops_spec(o, s, Seq::<OpModel>::empty()) == Ok::<Seq<u8>, crate::common::SmdiffError>(o + repeat(byte, 0)) by {
            assert(o + repeat(byte, 0) =~= o);
        }
    }
    if len < RUN_LIMIT {
        let mut processed: usize = 0;
        proof {
            assert(Seq::<OpModel>::empty() + run_chunks(byte, len as int) =~= run_chunks(byte, len as int));
        }
        while processed < len
            invariant
                processed <= len < RUN_LIMIT,
                output@.len() >= n0,
                n0 == old(output)@.len(),
                output@.subrange(0, n0 as int) == old(output)@,
                tail_models(output@, n0 as int) + run_chunks(byte, len - processed) == run_chunks(byte, len as int),
                runs_bytes(tail_models(output@, n0 as int), byte, processed as int, run_start_pos as int),
                forall|i: int| n0 <= i < output@.len() ==> op_emittable(op_model(#[trigger] output@[i])),
            decreases len - processed,
        {
            let remaining = len - processed;
            let chunk_size = if (MAX_RUN_LEN as usize) < remaining { MAX_RUN_LEN as usize } else { remaining };
            let ghost pre = tail_models(output@, n0 as int);
            let ghost prefix = output@;
            output.push(Op::Run(Run { byte, len: chunk_size as u8 }));
            let ghost rop = OpModel::Run(Run { byte, len: chunk_size as u8 });
            proof {
                assert(models(output@) =~= models(prefix).push(rop));
                assert(tail_models(output@, n0 as int) =~= pre.push(rop));
                assert(pre.push(rop) + run_chunks(byte, remaining - chunk_size) =~= pre + (seq![rop] + run_chunks(byte, remaining - chunk_size)));
                assert forall|o: Seq<u8>, s: Option<Seq<u8>>| o.len() == run_start_pos implies
                    #[trigger] apply_ops_spec(o, s, pre.push(rop)) == Ok::<Seq<u8>, crate::common::SmdiffError>(o + repeat(byte, processed + chunk_size)) by {
                    lemma_apply_push(o, s, pre, rop);
                    assert(apply_ops_spec(o, s, pre) == Ok::<Seq<u8>, crate::common::SmdiffError>(o + repeat(byte, processed as int)));
                    assert(o + repeat(byte, processed as int) + Seq::new(chunk_size as nat, |i: int| byte) =~= o + repeat(byte, processed + chunk_size));
                }
                assert(output@.subrange(0, n0 as int) =~= prefix.subrange(0, n0 as int));
            }
            processed = processed + chunk_size;
        }
        proof {
            assert(tail_models(output@, n0 as int) + Seq::<OpModel>::empty() =~= tail_models(output@, n0 as int));
        }
    } else {
        let r62 = Run { byte, len: MAX_RUN_LEN };
        output.push(Op::Run(r62));
        output.push(Op::Run(r62));
        output.push(Op::Run(r62));
        let ghost three = seq![OpModel::Run(r62), OpModel::Run(r62), OpModel::Run(r62)];
        proof {
            assert(tail_models(output@, n0 as int) =~= three);
            assert forall|o: Seq<u8>, s: Option<Seq<u8>>| o.len() == run_start_pos implies
                #[trigger] apply_ops_spec(o, s, three) == Ok::<Seq<u8>, crate::common::SmdiffError>(o + repeat(byte, COPY_LIMIT as int)) by {
                reveal_with_fuel(apply_ops_spec, 4);
                assert(three.drop_last().drop_last().drop_last() =~= Seq::<OpModel>::empty());
                assert(three.drop_last().drop_last() =~= seq![OpModel::Run(r62)]);
                assert(three.drop_last() =~= seq![OpModel::Run(r62), OpModel::Run(r62)]);
                let b62 = Seq::new(62, |i: int| byte);
                assert(o + b62 + b62 + b62 =~= o + repeat(byte, COPY_LIMIT as int));
            }
        }
        let copy_bytes = len - COPY_LIMIT;
        let mut processed: usize = 0;
        let mut max_copy_size: usize = COPY_LIMIT;
        let start = run_start_pos as u64;
        proof {
            assert(three + run_copies(start, copy_bytes as int, COPY_LIMIT as int) =~= run_ops_spec(byte, len as int, start));
        }
        while processed < copy_bytes
            invariant
                processed <= copy_bytes == len - COPY_LIMIT,
                len <= usize::MAX / 2,
                max_copy_size == COPY_LIMIT + processed,
                start == run_start_pos,
                output@.len() >= n0,
                n0 == old(output)@.len(),
                output@.subrange(0, n0 as int) == old(output)@,
                tail_models(output@, n0 as int) + run_copies(start, copy_bytes - processed, max_copy_size as int) == run_ops_spec(byte, len as int, start),
                runs_bytes(tail_models(output@, n0 as int), byte, COPY_LIMIT + processed, run_start_pos as int),
                forall|i: int| n0 <= i < output@.len() ==> op_emittable(op_model(#[trigger] output@[i])),
            decreases copy_bytes - processed,
        {
            let rem = copy_bytes - processed;
            let c0 = if max_copy_size < rem { max_copy_size } else { rem };
            let copy_size = if c0 < MAX_INST_SIZE { c0 } else { MAX_INST_SIZE };
            let ghost pre = tail_models(output@, n0 as int);
            let ghost prefix = output@;
            output.push(Op::Copy(crate::common::Copy { src: CopySrc::Output, addr: start, len: copy_size as u16 }));
            let ghost cop = OpModel::Copy(crate::common::Copy { src: CopySrc::Output, addr: start, len: copy_size as u16 });
            proof {
                assert(models(output@) =~= models(prefix).push(cop));
                assert(tail_models(output@, n0 as int) =~= pre.push(cop));
                assert(pre.push(cop) + run_copies(start, rem - copy_size, max_copy_size + copy_size)
                    =~= pre + (seq![cop] + run_copies(start, rem - copy_size, max_copy_size + copy_size)));
                assert forall|o: Seq<u8>, s: Option<Seq<u8>>| o.len() == run_start_pos implies
                    #[trigger] apply_ops_spec(o, s, pre.push(cop)) == Ok::<Seq<u8>, crate::common::SmdiffError>(o + repeat(byte, COPY_LIMIT + processed + copy_size)) by {
                    lemma_apply_push(o, s, pre, cop);
                    let o1 = o + repeat(byte, COPY_LIMIT + processed);
                    assert(apply_ops_spec(o, s, pre) == Ok::<Seq<u8>, crate::common::SmdiffError>(o1));
                    assert(o1.subrange(start as int, start + copy_size) =~= repeat(byte, copy_size as int));
                    assert(o1 + repeat(byte, copy_size as int) =~= o + repeat(byte, COPY_LIMIT + processed + copy_size));
                }
                assert(output@.subrange(0, n0 as int) =~= prefix.subrange(0, n0 as int));
            }
            processed = processed + copy_size;
            max_copy_size = max_copy_size + copy_size;
        }
        proof {
            assert(tail_models(output@, n0 as int) + Seq::<OpModel>::empty() =~= tail_models(output@, n0 as int));
        }
    }
}


/// Shortening a valid match keeps it valid.
proof fn lemma_set_len_valid(op: InnerOp, new_len: usize, src: Seq<u8>, trgt: Seq<u8>)
    requires
        inner_valid(op, src, trgt),
        new_len <= op_length(op),
    ensures
        inner_valid(match op {
            InnerOp::MatchSrc { start, o_pos, .. } => InnerOp::MatchSrc { start, length: new_len, o_pos },
            InnerOp::MatchTrgt { start, o_pos, .. } => InnerOp::MatchTrgt { start, length: new_len, o_pos },
            InnerOp::Run { byte, o_pos, .. } => InnerOp::Run { byte, length: new_len, o_pos },
        }, src, trgt),
{
    match op {
        InnerOp::MatchSrc { start, length, o_pos } => {
            assert(src.subrange(start as int, start + new_len) =~= src.subrange(start as int, start + length).subrange(0, new_len as int));
            assert(trgt.subrange(o_pos as int, o_pos + new_len) =~= trgt.subrange(o_pos as int, o_pos + length).subrange(0, new_len as int));
        },
        InnerOp::MatchTrgt { start, length, o_pos } => {
            assert(trgt.subrange(start as int, start + new_len) =~= trgt.subrange(start as int, start + length).subrange(0, new_len as int));
            assert(trgt.subrange(o_pos as int, o_pos + new_len) =~= trgt.subrange(o_pos as int, o_pos + length).subrange(0, new_len as int));
        },
        InnerOp::Run { .. } => {},
    }
}

/// Moving the start of a valid match forward (keeping its end) keeps it valid.
proof fn lemma_set_o_pos_valid(op: InnerOp, new_pos: usize, src: Seq<u8>, trgt: Seq<u8>)
    requires
        inner_valid(op, src, trgt),
        op_pos(op) <= new_pos <= op_end(op),
        src.len() <= usize::MAX,
    ensures
        inner_valid(match op {
            InnerOp::MatchSrc { start, length, o_pos } => InnerOp::MatchSrc {
                start: (start + new_pos - o_pos) as usize, length: (length - (new_pos - o_pos)) as usize, o_pos: new_pos },
            InnerOp::MatchTrgt { start, length, o_pos } => InnerOp::MatchTrgt {
                start: (start + new_pos - o_pos) as usize, length: (length - (new_pos - o_pos)) as usize, o_pos: new_pos },
            InnerOp::Run { byte, length, o_pos } => InnerOp::Run { byte, length: (length - (new_pos - o_pos)) as usize, o_pos: new_pos },
        }, src, trgt),
{
    match op {
        InnerOp::MatchSrc { start, length, o_pos } => {
            let d = new_pos - o_pos;
            assert(src.subrange(start + d, start + length) =~= src.subrange(start as int, start + length).subrange(d, length as int));
            assert(trgt.subrange(o_pos + d, o_pos + length) =~= trgt.subrange(o_pos as int, o_pos + length).subrange(d, length as int));
        },
        InnerOp::MatchTrgt { start, length, o_pos } => {
            let d = new_pos - o_pos;
            assert(trgt.subrange(start + d, start + length) =~= trgt.subrange(start as int, start + length).subrange(d, length as int));
            assert(trgt.subrange(o_pos + d, o_pos + length) =~= trgt.subrange(o_pos as int, o_pos + length).subrange(d, length as int));
        },
        InnerOp::Run { .. } => {},
    }
}

/// A valid match ends inside the target.
proof fn lemma_valid_end(op: InnerOp, src: Seq<u8>, trgt: Seq<u8>)
    requires
        inner_valid(op, src, trgt),
    ensures
        op_end(op) <= trgt.len(),
{
}

/// The invariant of the overlap pass, with the next match to look at being `two` and the
/// last kept match before it `one`.
spec fn overlap_inv(ops: Seq<InnerOp>, one: int, two: int, src: Seq<u8>, trgt: Seq<u8>) -> bool {
    &&& 0 <= one < two <= ops.len()
    &&& forall|k: int| 0 <= k < ops.len() ==> inner_valid(#[trigger] ops[k], src, trgt)
    &&& forall|i: int, j: int| 0 <= i < j < ops.len() ==> op_pos(ops[i]) <= op_pos(ops[j])
    &&& forall|i: int, j: int| 0 <= i < j < two && op_length(ops[i]) > 0 && op_length(ops[j]) > 0 ==> op_end(ops[i]) <= op_pos(ops[j])
    &&& forall|i: int| 0 <= i < one && op_length(ops[i]) > 0 ==> op_end(#[trigger] ops[i]) <= op_pos(ops[one])
    &&& forall|k: int| one < k < two ==> op_length(#[trigger] ops[k]) == 0
}

/// The smallest match the source matcher reports by default.
pub const SRC_MIN_MATCH: usize = 9;
/// The smallest match the target matcher reports by default.
pub const TRGT_MIN_MATCH: usize = 4;

/// A match cut to `n` bytes (as `InnerOp::set_len` does).
pub open spec fn with_len(op: InnerOp, n: usize) -> InnerOp {
    match op {
        InnerOp::MatchSrc { start, o_pos, .. } => InnerOp::MatchSrc { start, length: n, o_pos },
        InnerOp::MatchTrgt { start, o_pos, .. } => InnerOp::MatchTrgt { start, length: n, o_pos },
        InnerOp::Run { byte, o_pos, .. } => InnerOp::Run { byte, length: n, o_pos },
    }
}

/// A match started later, at `p`, keeping its end (as `InnerOp::set_o_pos` does).
pub open spec fn with_pos(op: InnerOp, p: usize) -> InnerOp {
    match op {
        InnerOp::MatchSrc { start, length, o_pos } => InnerOp::MatchSrc {
            start: (start + p - o_pos) as usize, length: (length - (p - o_pos)) as usize, o_pos: p },
        InnerOp::MatchTrgt { start, length, o_pos } => InnerOp::MatchTrgt {
            start: (start + p - o_pos) as usize, length: (length - (p - o_pos)) as usize, o_pos: p },
        InnerOp::Run { byte, length, o_pos } => InnerOp::Run { byte, length: (length - (p - o_pos)) as usize, o_pos: p },
    }
}

/// The matches after trimming overlaps, going on from the last kept match `one` and the next
/// one, `two`: a `two` that does not overlap `one` is kept; one that the match after it also
/// overlaps is dropped (cut to 0 bytes); of two small or nearly coincident matches the
/// shorter is dropped (`one` when it is shorter); a `two` ending inside `one` is dropped;
/// otherwise `one` ends and `two` starts at the middle of their overlap.
pub open spec fn resolve_spec(ops: Seq<InnerOp>, one: int, two: int) -> Seq<InnerOp>
    decreases ops.len() - two,
{
    if one < 0 || two <= one || two >= ops.len() {
        ops
    } else {
        let one_p = op_pos(ops[one]);
        let one_end = op_end(ops[one]);
        let two_p = op_pos(ops[two]);
        if one_end <= two_p {
            resolve_spec(ops, two, two + 1)
        } else if two + 1 < ops.len() && one_end > op_pos(ops[two + 1]) {
            resolve_spec(ops.update(two, with_len(ops[two], 0)), one, two + 1)
        } else {
            let two_end = op_end(ops[two]);
            if two_end - one_p <= SRC_MIN_MATCH + TRGT_MIN_MATCH || two_p - one_p <= 4 {
                if op_length(ops[one]) < op_length(ops[two]) {
                    resolve_spec(ops.update(one, with_len(ops[one], 0)), two, two + 1)
                } else {
                    resolve_spec(ops.update(two, with_len(ops[two], 0)), one, two + 1)
                }
            } else if two_end < one_end {
                resolve_spec(ops.update(two, with_len(ops[two], 0)), one, two + 1)
            } else {
                let mid = two_p + (one_end - two_p) / 2;
                resolve_spec(
                    ops.update(one, with_len(ops[one], (mid - one_p) as usize)).update(two, with_pos(ops[two], mid as usize)),
                    two,
                    two + 1,
                )
            }
        }
    }
}

/// The operations that bytes `pos..` of a match give: copies from the source or the output
/// for a copy match, the Run operations (starting at `pos`) for a run.
pub open spec fn match_ops(op: InnerOp, pos: int) -> Seq<OpModel> {
    match op {
        InnerOp::MatchSrc { start, length, .. } => copy_chunks(CopySrc::Dict, start as int, length as int),
        InnerOp::MatchTrgt { start, length, .. } => copy_chunks(CopySrc::Output, start as int, length as int),
        InnerOp::Run { byte, length, .. } => run_ops_spec(byte, length as int, pos as u64),
    }
}

/// The operations for the (trimmed) matches from `idx` on, the target written up to
/// `out_pos`: the bytes before each kept match as Adds, then the match's operations; the
/// bytes after the last one as Adds.
pub open spec fn translate_from(ops: Seq<InnerOp>, trgt: Seq<u8>, idx: int, out_pos: int) -> Seq<OpModel>
    decreases ops.len() - idx,
{
    if idx < 0 || idx >= ops.len() {
        if trgt.len() > out_pos { add_ops_spec(trgt.subrange(out_pos, trgt.len() as int)) } else { Seq::empty() }
    } else {
        let op = ops[idx];
        if op_length(op) == 0 {
            translate_from(ops, trgt, idx + 1, out_pos)
        } else {
            let at = if op_pos(op) > out_pos { op_pos(op) } else { out_pos };
            let gap = if op_pos(op) > out_pos { add_ops_spec(trgt.subrange(out_pos, op_pos(op))) } else { Seq::empty() };
            gap + match_ops(op, at) + translate_from(ops, trgt, idx + 1, at + op_length(op))
        }
    }
}

/// Trims overlapping matches so that the matches kept (non-zero length) no longer overlap:
/// a match that a third one also overlaps is dropped; of two small or nearly coincident
/// matches the shorter is dropped; a match that ends inside the one before it is dropped;
/// otherwise both are cut at the middle of the overlap.
#[verifier::spinoff_prover]
#[verifier::rlimit(40)]
fn resolve_overlaps(ops: &mut Vec<InnerOp>, Ghost(src): Ghost<Seq<u8>>, trgt: &[u8])
    requires
        inner_ops_ok(old(ops)@, src, trgt@),
        src.len() <= usize::MAX,
    ensures
        final(ops)@.len() == old(ops)@.len(),
        forall|k: int| 0 <= k < final(ops)@.len() ==> inner_valid(#[trigger] final(ops)@[k], src, trgt@),
        forall|i: int, j: int| 0 <= i < j < final(ops)@.len() ==> op_pos(final(ops)@[i]) <= op_pos(final(ops)@[j]),
        forall|i: int, j: int| 0 <= i < j < final(ops)@.len() && op_length(final(ops)@[i]) > 0 && op_length(final(ops)@[j]) > 0
            ==> op_end(final(ops)@[i]) <= op_pos(final(ops)@[j]),
        final(ops)@ == resolve_spec(old(ops)@, 0, 1),
{
    let ops_len = ops.len();
    if ops_len == 0 {
        return;
    }
    let trgt_len = trgt.len();
    let mut one: usize = 0;
    let mut two: usize = 1;
    while two < ops_len
        invariant
            ops@.len() == ops_len,
            trgt_len == trgt@.len(),
            src.len() <= usize::MAX,
            overlap_inv(ops@, one as int, two as int, src, trgt@),
            resolve_spec(ops@, one as int, two as int) == resolve_spec(old(ops)@, 0, 1),
        decreases ops_len - two,
    {
        proof {
            lemma_valid_end(ops@[one as int], src, trgt@);
            lemma_valid_end(ops@[two as int], src, trgt@);
        }
        let one_p = ops[one].o_pos();
        let one_len = ops[one].len();
        let one_end = one_p + one_len;
        let two_p = ops[two].o_pos();
        if one_end <= two_p {
            proof {
                assert forall|i: int, j: int| 0 <= i < j < two + 1 && op_length(ops@[i]) > 0 && op_length(ops@[j]) > 0
                    implies op_end(ops@[i]) <= op_pos(ops@[j]) by {
                    if j == two && i != one {
                        assert(i < one);
                        assert(op_end(ops@[i]) <= op_pos(ops@[one as int]));
                    }
                }
            }
            one = two;
            two = two + 1;
            continue;
        }
        if two + 1 < ops_len {
            if one_end > ops[two + 1].o_pos() {
                let mut t = ops[two];
                proof { lemma_set_len_valid(t, 0, src, trgt@); }
                t.set_len(0);
                ops.set(two, t);
                two = two + 1;
                continue;
            }
        }
        let two_len = ops[two].len();
        let two_end = two_p + two_len;
        let span = two_end - one_p;
        if span <= SRC_MIN_MATCH + TRGT_MIN_MATCH || two_p - one_p <= 4 {
            if one_len < two_len {
                let mut t = ops[one];
                proof { lemma_set_len_valid(t, 0, src, trgt@); }
                t.set_len(0);
                ops.set(one, t);
                proof {
                    assert forall|i: int, j: int| 0 <= i < j < two + 1 && op_length(ops@[i]) > 0 && op_length(ops@[j]) > 0
                        implies op_end(ops@[i]) <= op_pos(ops@[j]) by {
                        if j == two {
                            assert(i < one);
                            assert(op_end(ops@[i]) <= op_pos(ops@[one as int]));
                            assert(op_pos(ops@[one as int]) <= op_pos(ops@[two as int]));
                        }
                    }
                }
                one = two;
            } else {
                let mut t = ops[two];
                proof { lemma_set_len_valid(t, 0, src, trgt@); }
                t.set_len(0);
                ops.set(two, t);
            }
            two = two + 1;
            continue;
        }
        if two_end < one_end {
            let mut t = ops[two];
            proof { lemma_set_len_valid(t, 0, src, trgt@); }
            t.set_len(0);
            ops.set(two, t);
            two = two + 1;
            continue;
        }
        let midpoint = two_p + (one_end - two_p) / 2;
        let mut a = ops[one];
        proof { lemma_set_len_valid(a, (midpoint - one_p) as usize, src, trgt@); }
        a.set_len(midpoint - one_p);
        ops.set(one, a);
        let mut b = ops[two];
        proof { lemma_set_o_pos_valid(b, midpoint, src, trgt@); }
        b.set_o_pos(midpoint);
        ops.set(two, b);
        proof {
            let o = ops@;
            assert(op_end(o[one as int]) == midpoint);
            assert(op_pos(o[two as int]) == midpoint);
            if two + 1 < ops_len {
                assert(one_end <= op_pos(o[two + 1]));
            }
            assert forall|i: int, j: int| 0 <= i < j < o.len() implies op_pos(o[i]) <= op_pos(o[j]) by {
                if j > two && i <= two {
                    assert(op_pos(o[two + 1]) <= op_pos(o[j]));
                }
            }
            assert forall|i: int, j: int| 0 <= i < j < two + 1 && op_length(o[i]) > 0 && op_length(o[j]) > 0
                implies op_end(o[i]) <= op_pos(o[j]) by {
                if j == two && i < one {
                    assert(op_end(o[i]) <= op_pos(o[one as int]));
                }
            }
        }
        one = two;
        two = two + 1;
    }
}

/// What was pushed past `prev` extends the models of `prev`.
pub proof fn lemma_models_extend<A: AddOp>(prev: Seq<Op<A>>, cur: Seq<Op<A>>)
    requires
        prev.len() <= cur.len(),
        cur.subrange(0, prev.len() as int) == prev,
    ensures
        models(cur) == models(prev) + models(cur).subrange(prev.len() as int, cur.len() as int),
{
    assert(models(cur) =~= models(prev) + models(cur).subrange(prev.len() as int, cur.len() as int)) by {
        assert forall|i: int| 0 <= i < prev.len() implies models(cur)[i] == models(prev)[i] by {
            assert(cur[i] == cur.subrange(0, prev.len() as int)[i]);
        }
    }
}

/// Every operation of `cur` round-trips when those of its prefix `prev` and those pushed
/// after it do.
proof fn lemma_roundtrips_extend<A: AddOp>(prev: Seq<Op<A>>, cur: Seq<Op<A>>)
    requires
        prev.len() <= cur.len(),
        cur.subrange(0, prev.len() as int) == prev,
        forall|i: int| 0 <= i < prev.len() ==> op_emittable(op_model(#[trigger] prev[i])),
        forall|i: int| prev.len() <= i < cur.len() ==> op_emittable(op_model(#[trigger] cur[i])),
    ensures
        forall|i: int| 0 <= i < cur.len() ==> op_emittable(op_model(#[trigger] cur[i])),
{
    assert forall|i: int| 0 <= i < cur.len() implies op_emittable(op_model(#[trigger] cur[i])) by {
        if i < prev.len() {
            assert(cur[i] == cur.subrange(0, prev.len() as int)[i]);
        }
    }
}

/// The bytes of an optional source; none when there is no source.
pub open spec fn dict_bytes(dict: Option<Seq<u8>>) -> Seq<u8> {
    match dict {
        Some(d) => d,
        None => Seq::empty(),
    }
}

/// Turns the encoder's matches into operations that rebuild the whole target: overlaps are
/// trimmed first, then each gap between the kept matches becomes Add operations and each
/// match becomes Copy (from the source or the output) or Run operations.
pub fn translate_inner_ops<'a>(trgt: &'a [u8], ops: Vec<InnerOp>, Ghost(dict): Ghost<Option<Seq<u8>>>) -> (r: Vec<Op<AddRef<'a>>>)
    requires
        inner_ops_ok(ops@, dict_bytes(dict), trgt@),
        dict_bytes(dict).len() <= usize::MAX,
        trgt@.len() <= usize::MAX / 2,
    ensures
        apply_ops_spec(Seq::empty(), dict, models(r@)) == Ok::<Seq<u8>, crate::common::SmdiffError>(trgt@),
        forall|i: int| 0 <= i < r@.len() ==> op_emittable(op_model(#[trigger] r@[i])),
        models(r@) == translate_from(resolve_spec(ops@, 0, 1), trgt@, 0, 0),
{
    let ghost src = dict_bytes(dict);
    let mut ops = ops;
    resolve_overlaps(&mut ops, Ghost(src), trgt);
    let ghost whole = translate_from(ops@, trgt@, 0, 0);
    let ops_len = ops.len();
    let trgt_len = trgt.len();
    let mut out_ops: Vec<Op<AddRef<'a>>> = Vec::new();
    let mut out_pos: usize = 0;
    let mut idx: usize = 0;
    proof {
        assert(trgt@.subrange(0, 0) =~= Seq::<u8>::empty());
        assert(models(out_ops@) =~= Seq::<OpModel>::empty());
    }
    while idx < ops_len
        invariant
            ops_len == ops@.len(),
            trgt_len == trgt@.len() <= usize::MAX / 2,
            src.len() <= usize::MAX,
            src == dict_bytes(dict),
            idx <= ops_len,
            out_pos <= trgt_len,
            forall|k: int| 0 <= k < ops@.len() ==> inner_valid(#[trigger] ops@[k], src, trgt@),
            forall|i: int, j: int| 0 <= i < j < ops@.len() && op_length(ops@[i]) > 0 && op_length(ops@[j]) > 0
                ==> op_end(ops@[i]) <= op_pos(ops@[j]),
            forall|k: int| idx <= k < ops@.len() && op_length(#[trigger] ops@[k]) > 0 ==> out_pos <= op_pos(ops@[k]),
            apply_ops_spec(Seq::empty(), dict, models(out_ops@)) == Ok::<Seq<u8>, crate::common::SmdiffError>(trgt@.subrange(0, out_pos as int)),
            forall|i: int| 0 <= i < out_ops@.len() ==> op_emittable(op_model(#[trigger] out_ops@[i])),
            models(out_ops@) + translate_from(ops@, trgt@, idx as int, out_pos as int) == whole,
        decreases ops_len - idx,
    {
        let op = ops[idx];
        let len = op.len();
        if len == 0 {
            idx = idx + 1;
            continue;
        }
        proof { lemma_valid_end(op, src, trgt@); }
        let o_pos = op.o_pos();
        if o_pos > out_pos {
            let ghost prev = out_ops@;
            make_add_ops(&trgt[out_pos..o_pos], &mut out_ops);
            proof {
                lemma_roundtrips_extend(prev, out_ops@);
                lemma_models_extend(prev, out_ops@);
                let tail = models(out_ops@).subrange(prev.len() as int, out_ops@.len() as int);
                lemma_apply_concat(Seq::empty(), dict, models(prev), tail);
                assert(apply_ops_spec(trgt@.subrange(0, out_pos as int), dict, tail)
                    == Ok::<Seq<u8>, crate::common::SmdiffError>(trgt@.subrange(0, out_pos as int) + trgt@.subrange(out_pos as int, o_pos as int)));
                assert(trgt@.subrange(0, out_pos as int) + trgt@.subrange(out_pos as int, o_pos as int) =~= trgt@.subrange(0, o_pos as int));
            }
            out_pos = o_pos;
        }
        let ghost prev = out_ops@;
        let ghost before = trgt@.subrange(0, out_pos as int);
        let ghost piece = trgt@.subrange(out_pos as int, out_pos + len);
        match op {
            InnerOp::MatchSrc { start, length, .. } => {
                make_copy_ops(CopySrc::Dict, start, length, &mut out_ops);
                proof {
                    assert(dict is Some);
                    assert(src.subrange(start as int, start + length) == piece);
                }
            },
            InnerOp::MatchTrgt { start, length, .. } => {
                make_copy_ops(CopySrc::Output, start, length, &mut out_ops);
                proof {
                    assert(before.subrange(start as int, start + length) =~= trgt@.subrange(start as int, start + length));
                    assert(trgt@.subrange(start as int, start + length) == piece);
                }
            },
            InnerOp::Run { byte, length, .. } => {
                make_run_ops(byte, length, out_pos, &mut out_ops);
                proof {
                    assert(repeat(byte, length as int) =~= piece);
                }
            },
        }
        proof {
            lemma_roundtrips_extend(prev, out_ops@);
            lemma_models_extend(prev, out_ops@);
            let tail = models(out_ops@).subrange(prev.len() as int, out_ops@.len() as int);
            lemma_apply_concat(Seq::empty(), dict, models(prev), tail);
            assert(apply_ops_spec(before, dict, tail) == Ok::<Seq<u8>, crate::common::SmdiffError>(before + piece));
            assert(before + piece =~= trgt@.subrange(0, out_pos + len));
            assert forall|k: int| idx + 1 <= k < ops@.len() && op_length(#[trigger] ops@[k]) > 0 implies out_pos + len <= op_pos(ops@[k]) by {
                assert(op_end(ops@[idx as int]) <= op_pos(ops@[k]));
            }
        }
        out_pos = out_pos + len;
        idx = idx + 1;
    }
    if trgt_len > out_pos {
        let ghost prev = out_ops@;
        make_add_ops(&trgt[out_pos..trgt_len], &mut out_ops);
        proof {
            lemma_roundtrips_extend(prev, out_ops@);
            lemma_models_extend(prev, out_ops@);
            let tail = models(out_ops@).subrange(prev.len() as int, out_ops@.len() as int);
            lemma_apply_concat(Seq::empty(), dict, models(prev), tail);
            assert(apply_ops_spec(trgt@.subrange(0, out_pos as int), dict, tail)
                == Ok::<Seq<u8>, crate::common::SmdiffError>(trgt@.subrange(0, out_pos as int) + trgt@.subrange(out_pos as int, trgt_len as int)));
            assert(trgt@.subrange(0, out_pos as int) + trgt@.subrange(out_pos as int, trgt_len as int) =~= trgt@);
        }
    } else {
        proof {
            assert(trgt@.subrange(0, out_pos as int) =~= trgt@);
        }
    }
    out_ops
}

} // verus!
