//! Converts a VCDIFF patch into SMDIFF sections. The VCDIFF reader hands over one event at a
//! time (a window starts, an instruction, a window ends); each event becomes SMDIFF
//! operations of at most the sizes the format holds, gathered into sections of at most
//! MAX_WIN_SIZE output bytes: a section is closed when the next operation would not fit.
use vstd::prelude::*;
use crate::common::{models, op_model, op_oal, Add, CopySrc, Format, Op, OpModel, Run, SectionHeader, MAX_INST_SIZE, MAX_RUN_LEN, MAX_WIN_SIZE};
use crate::encoder::op_maker::{add_chunks, copy_chunks, op_emittable, run_chunks};
use crate::writer::{ops_add_oal_sum, ops_oal_sum, section_header_for};
use crate::decoder::{apply_ops_spec, lemma_apply_concat};
use crate::common::SmdiffError;
use crate::encoder::op_maker::{lemma_apply_one, lemma_copy_chunks_bytes, repeat};
use crate::merger::laws::{lemma_add_chunks_bytes, lemma_run_chunks_bytes};

verus! {

/// Where a VCDIFF copy reads from.
#[derive(Clone, Copy, Debug, PartialEq, Eq, Structural)]
pub enum VcdCopy {
    /// The window's source segment at `u_pos` (the target itself in a target-sourced window).
    S { u_pos: u32 },
    /// The target window, `inst_u_pos_start - u_pos` bytes back from the current position.
    T { inst_u_pos_start: u32, u_pos: u32 },
    /// The bytes just produced, repeated: the last `len_in_u - len_o` bytes over `len_o` bytes.
    Q { len_o: u32 },
}

/// What the VCDIFF reader reports, in order.
pub enum VcdEvent {
    /// A window starts: its source segment position, and whether it copies from the target.
    Window { ssp: Option<u64>, target_source: bool },
    /// An ADD instruction with its bytes.
    Add(Vec<u8>),
    /// A RUN instruction.
    Run { byte: u8, len: u32 },
    /// A COPY instruction: its length in the target window (`len_in_o`) and in the
    /// superstring (`len_in_u`).
    Copy { kind: VcdCopy, len_in_u: u32, len_in_o: u32 },
    /// The window ends.
    EndOfWindow,
}

/// The state of a conversion: the section being filled, its output size and Add bytes, the
/// output position reached, and the current window's source.
pub struct VcdConvState {
    pub ops: Vec<Op<Add>>,
    pub win_size: u32,
    pub num_add: u32,
    pub o_pos: u64,
    pub ssp: Option<u64>,
    pub target_source: bool,
}

/// The operations of the current section are ones the format holds, each producing bytes,
/// and the counters are their output size (at most MAX_WIN_SIZE) and Add bytes.
pub open spec fn conv_wf(st: VcdConvState) -> bool {
    &&& st.win_size == ops_oal_sum(models(st.ops@))
    &&& st.win_size <= MAX_WIN_SIZE
    &&& st.num_add == ops_add_oal_sum(models(st.ops@))
    &&& forall|i: int| 0 <= i < st.ops@.len() ==> op_emittable(#[trigger] models(st.ops@)[i])
}

/// The operations of the emitted sections.
pub open spec fn emitted_models(e: Seq<(Vec<Op<Add>>, SectionHeader)>) -> Seq<Seq<OpModel>> {
    e.map_values(|x: (Vec<Op<Add>>, SectionHeader)| models(x.0@))
}

/// Each emitted section has the header its operations call for (more sections follow), at
/// most MAX_WIN_SIZE output bytes and operations the format holds.
pub open spec fn sections_ok(e: Seq<(Vec<Op<Add>>, SectionHeader)>) -> bool {
    forall|k: int| 0 <= k < e.len() ==> {
        &&& (#[trigger] e[k]).1 == section_header_for(models(e[k].0@), true)
        &&& ops_oal_sum(models(e[k].0@)) <= MAX_WIN_SIZE
        &&& forall|i: int| 0 <= i < e[k].0@.len() ==> op_emittable(#[trigger] models(e[k].0@)[i])
    }
}

/// The sections closed and the section left open when `chunks` are added, one by one, to the
/// open section `pending`: a chunk that would take the section past MAX_WIN_SIZE output
/// bytes closes it and starts the next one.
pub open spec fn pack(pending: Seq<OpModel>, chunks: Seq<OpModel>) -> (Seq<Seq<OpModel>>, Seq<OpModel>)
    decreases chunks.len(),
{
    if chunks.len() == 0 {
        (Seq::empty(), pending)
    } else {
        let c = chunks[0];
        let cut = ops_oal_sum(pending) + op_oal(c) > MAX_WIN_SIZE;
        let next = if cut { seq![c] } else { pending.push(c) };
        let rest = pack(next, chunks.drop_first());
        (if cut { seq![pending] + rest.0 } else { rest.0 }, rest.1)
    }
}

/// Copies of the `slice` bytes at `addr` in the output, repeated over `remaining` bytes.
pub open spec fn repeat_copies(addr: u64, slice: int, remaining: int) -> Seq<OpModel>
    decreases remaining,
{
    if remaining <= 0 || slice <= 0 {
        Seq::empty()
    } else {
        let c = if remaining < slice { remaining } else { slice };
        seq![OpModel::Copy(crate::common::Copy { src: CopySrc::Output, addr, len: c as u16 })] + repeat_copies(addr, slice, remaining - c)
    }
}

/// The SMDIFF operations an event stands for: Adds of at most MAX_INST_SIZE bytes, Runs of
/// at most MAX_RUN_LEN, copies of at most MAX_INST_SIZE bytes from the address the copy
/// names (a source copy reads the target in a target-sourced window), and repeated copies
/// for a copy of the bytes being produced.
pub open spec fn event_chunks(st: VcdConvState, ev: VcdEvent) -> Seq<OpModel> {
    match ev {
        VcdEvent::Add(b) => add_chunks(b@),
        VcdEvent::Run { byte, len } => run_chunks(byte, len as int),
        VcdEvent::Copy { kind, len_in_u, len_in_o } => match kind {
            VcdCopy::S { u_pos } => copy_chunks(
                if st.target_source { CopySrc::Output } else { CopySrc::Dict },
                st.ssp->0 + u_pos,
                len_in_o as int,
            ),
            VcdCopy::T { inst_u_pos_start, u_pos } => copy_chunks(CopySrc::Output, st.o_pos - (inst_u_pos_start - u_pos), len_in_o as int),
            VcdCopy::Q { len_o } => repeat_copies((st.o_pos - (len_in_u - len_o)) as u64, len_in_u - len_o, len_o as int),
        },
        _ => Seq::empty(),
    }
}

/// The output position after an event.
pub open spec fn event_o_pos(st: VcdConvState, ev: VcdEvent) -> int {
    match ev {
        VcdEvent::Add(b) => st.o_pos + b@.len(),
        VcdEvent::Run { len, .. } => st.o_pos + len,
        VcdEvent::Copy { kind, len_in_u, .. } => match kind {
            VcdCopy::Q { len_o } => st.o_pos + len_o,
            _ => st.o_pos + len_in_u,
        },
        _ => st.o_pos as int,
    }
}

/// The event can be converted: a source copy needs a source segment, a copy's addresses
/// stay within 64 bits and point back into what was produced, a repeated copy repeats at
/// least one and at most MAX_INST_SIZE bytes, and the output position stays within 64 bits.
pub open spec fn event_ok(st: VcdConvState, ev: VcdEvent) -> bool {
    &&& event_o_pos(st, ev) <= u64::MAX
    &&& match ev {
        VcdEvent::Copy { kind, len_in_u, len_in_o } => match kind {
            VcdCopy::S { u_pos } => st.ssp is Some && st.ssp->0 + u_pos + len_in_o <= u64::MAX,
            VcdCopy::T { inst_u_pos_start, u_pos } => u_pos <= inst_u_pos_start && inst_u_pos_start - u_pos <= st.o_pos
                && st.o_pos - (inst_u_pos_start - u_pos) + len_in_o <= u64::MAX,
            VcdCopy::Q { len_o } => len_o < len_in_u && len_in_u - len_o <= MAX_INST_SIZE && len_in_u - len_o <= st.o_pos,
        },
        _ => true,
    }
}

/// The last `slice` bytes before `addr + slice`, repeated over `n` bytes: what a VCDIFF copy
/// that overlaps the bytes it produces appends.
pub open spec fn cycle(out: Seq<u8>, addr: int, slice: int, n: int) -> Seq<u8> {
    Seq::new(n as nat, |j: int| out[addr + j % slice])
}

/// The repeated copies append the repeated slice.
proof fn lemma_repeat_copies_bytes(out: Seq<u8>, src: Option<Seq<u8>>, addr: u64, slice: int, remaining: int)
    requires
        1 <= slice <= MAX_INST_SIZE,
        addr + slice <= out.len(),
        remaining >= 0,
    ensures
        apply_ops_spec(out, src, repeat_copies(addr, slice, remaining)) == Ok::<Seq<u8>, SmdiffError>(out + cycle(out, addr as int, slice, remaining)),
    decreases remaining,
{
    if remaining == 0 {
        assert(out + cycle(out, addr as int, slice, 0) =~= out);
    } else {
        let c = if remaining < slice { remaining } else { slice };
        let op = OpModel::Copy(crate::common::Copy { src: CopySrc::Output, addr, len: c as u16 });
        lemma_apply_concat(out, src, seq![op], repeat_copies(addr, slice, remaining - c));
        lemma_apply_one(out, src, op);
        let piece = out.subrange(addr as int, addr + c);
        let o1 = out + piece;
        lemma_repeat_copies_bytes(o1, src, addr, slice, remaining - c);
        assert forall|j: int| 0 <= j < c implies piece[j] == out[addr + j % slice] by {
            vstd::arithmetic::div_mod::lemma_small_mod(j as nat, slice as nat);
        }
        assert forall|j: int| 0 <= j < remaining - c implies #[trigger] cycle(o1, addr as int, slice, remaining - c)[j]
            == out[addr + (j + c) % slice] by {
            vstd::arithmetic::div_mod::lemma_mod_bound(j, slice);
            if c == slice {
                vstd::arithmetic::div_mod::lemma_mod_add_multiples_vanish(j, slice);
            }
        }
        assert(o1 + cycle(o1, addr as int, slice, remaining - c) =~= out + cycle(out, addr as int, slice, remaining));
    }
}

/// What the operations of an event produce, applied to the output `out` written so far: an
/// ADD appends its bytes, a RUN its run of bytes, a copy the range it names (of the source,
/// or of the output in a target-sourced window or for a target copy) where that range is
/// there, and a copy of the bytes being produced the last bytes repeated.
pub proof fn lemma_event_bytes(st: VcdConvState, ev: VcdEvent, out: Seq<u8>, src: Option<Seq<u8>>)
    requires
        event_ok(st, ev),
        out.len() == st.o_pos,
    ensures
        ev matches VcdEvent::Add(b) ==> apply_ops_spec(out, src, event_chunks(st, ev)) == Ok::<Seq<u8>, SmdiffError>(out + b@),
        ev matches VcdEvent::Run { byte, len } ==> apply_ops_spec(out, src, event_chunks(st, ev))
            == Ok::<Seq<u8>, SmdiffError>(out + repeat(byte, len as int)),
        ev matches VcdEvent::Copy { kind: VcdCopy::Q { len_o }, len_in_u, .. } ==> apply_ops_spec(out, src, event_chunks(st, ev))
            == Ok::<Seq<u8>, SmdiffError>(out + cycle(out, st.o_pos - (len_in_u - len_o), len_in_u - len_o, len_o as int)),
        match ev {
            VcdEvent::Copy { kind: VcdCopy::S { u_pos }, len_in_o, .. } => {
                let a = st.ssp->0 + u_pos;
                &&& (!st.target_source && src is Some && a + len_in_o <= src->0.len()) ==> apply_ops_spec(out, src, event_chunks(st, ev))
                    == Ok::<Seq<u8>, SmdiffError>(out + src->0.subrange(a, a + len_in_o))
                &&& (st.target_source && a + len_in_o <= out.len()) ==> apply_ops_spec(out, src, event_chunks(st, ev))
                    == Ok::<Seq<u8>, SmdiffError>(out + out.subrange(a, a + len_in_o))
            },
            VcdEvent::Copy { kind: VcdCopy::T { inst_u_pos_start, u_pos }, len_in_o, .. } => {
                let a = st.o_pos - (inst_u_pos_start - u_pos);
                a + len_in_o <= out.len() ==> apply_ops_spec(out, src, event_chunks(st, ev))
                    == Ok::<Seq<u8>, SmdiffError>(out + out.subrange(a, a + len_in_o))
            },
            _ => true,
        },
{
    match ev {
        VcdEvent::Add(b) => {
            lemma_add_chunks_bytes(b@, out, src);
        },
        VcdEvent::Run { byte, len } => {
            lemma_run_chunks_bytes(byte, len as int, out, src);
        },
        VcdEvent::Copy { kind, len_in_u, len_in_o } => {
            match kind {
                VcdCopy::Q { len_o } => {
                    let slice = len_in_u - len_o;
                    lemma_repeat_copies_bytes(out, src, (st.o_pos - slice) as u64, slice as int, len_o as int);
                },
                VcdCopy::S { u_pos } => {
                    let a = st.ssp->0 + u_pos;
                    lemma_copy_chunks_bytes(if st.target_source { CopySrc::Output } else { CopySrc::Dict }, a, len_in_o as int);
                },
                VcdCopy::T { inst_u_pos_start, u_pos } => {
                    let a = st.o_pos - (inst_u_pos_start - u_pos);
                    lemma_copy_chunks_bytes(CopySrc::Output, a, len_in_o as int);
                },
            }
        },
        _ => {},
    }
}

/// The operations of sections, one after the other.
pub open spec fn concat_all(secs: Seq<Seq<OpModel>>) -> Seq<OpModel>
    decreases secs.len(),
{
    if secs.len() == 0 {
        Seq::empty()
    } else {
        secs[0] + concat_all(secs.drop_first())
    }
}

/// Packing loses and reorders nothing: the closed sections followed by the open one hold the
/// open section's operations followed by the chunks.
pub proof fn lemma_pack_keeps(pending: Seq<OpModel>, chunks: Seq<OpModel>)
    ensures
        concat_all(pack(pending, chunks).0) + pack(pending, chunks).1 == pending + chunks,
    decreases chunks.len(),
{
    if chunks.len() == 0 {
        assert(concat_all(Seq::<Seq<OpModel>>::empty()) + pending =~= pending + chunks);
    } else {
        let c = chunks[0];
        let cut = ops_oal_sum(pending) + op_oal(c) > MAX_WIN_SIZE;
        let next = if cut { seq![c] } else { pending.push(c) };
        let rest = chunks.drop_first();
        lemma_pack_keeps(next, rest);
        let r = pack(next, rest);
        if cut {
            let all = seq![pending] + r.0;
            assert(all[0] == pending);
            assert(all.drop_first() =~= r.0);
            assert(concat_all(all) == pending + concat_all(r.0));
            assert(pending + concat_all(r.0) + r.1 =~= pending + (concat_all(r.0) + r.1));
            assert(pending + (seq![c] + rest) =~= pending + chunks);
        } else {
            assert(pending.push(c) + rest =~= pending + chunks);
        }
    }
}

/// Splitting off the first chunk: packing it, then the rest from where it left the open
/// section.
proof fn lemma_pack_first(p: Seq<OpModel>, c: OpModel, rest: Seq<OpModel>)
    ensures
        pack(p, seq![c] + rest) == ({
            let one = pack(p, seq![c]);
            let more = pack(one.1, rest);
            (one.0 + more.0, more.1)
        }),
{
    let cs = seq![c] + rest;
    assert(cs[0] == c);
    assert(cs.drop_first() =~= rest);
    assert(seq![c].drop_first() =~= Seq::<OpModel>::empty());
    let cut = ops_oal_sum(p) + op_oal(c) > MAX_WIN_SIZE;
    let next = if cut { seq![c] } else { p.push(c) };
    assert(pack(next, Seq::<OpModel>::empty()) == (Seq::<Seq<OpModel>>::empty(), next));
    if cut {
        assert(seq![p] + Seq::<Seq<OpModel>>::empty() =~= seq![p]);
    } else {
        assert(Seq::<Seq<OpModel>>::empty() + pack(next, rest).0 =~= pack(next, rest).0);
    }
}

impl VcdConvState {
    /// A conversion at the start of the output, with nothing gathered yet.
    pub fn new() -> (r: Self)
        ensures
            conv_wf(r),
            r.ops@.len() == 0,
            r.o_pos == 0,
            r.ssp is None,
            !r.target_source,
    {
        let r = VcdConvState { ops: Vec::new(), win_size: 0, num_add: 0, o_pos: 0, ssp: None, target_source: false };
        proof {
            assert(models(r.ops@) =~= Seq::<OpModel>::empty());
        }
        r
    }

    /// Adds one operation to the open section, closing it first (into `emitted`) when the
    /// operation would take it past MAX_WIN_SIZE output bytes.
    fn push_chunk(&mut self, op: Op<Add>, emitted: &mut Vec<(Vec<Op<Add>>, SectionHeader)>)
        requires
            conv_wf(*old(self)),
            op_emittable(op_model(op)),
            sections_ok(old(emitted)@),
        ensures
            conv_wf(*final(self)),
            sections_ok(final(emitted)@),
            final(self).o_pos == old(self).o_pos,
            final(self).ssp == old(self).ssp,
            final(self).target_source == old(self).target_source,
            emitted_models(final(emitted)@) == emitted_models(old(emitted)@) + pack(models(old(self).ops@), seq![op_model(op)]).0,
            models(final(self).ops@) == pack(models(old(self).ops@), seq![op_model(op)]).1,
    {
        let l = op.oal() as u32;
        let ghost p = models(self.ops@);
        let ghost c = op_model(op);
        proof {
            assert(seq![c][0] == c);
            assert(seq![c].drop_first() =~= Seq::<OpModel>::empty());
            assert(pack(seq![c], Seq::<OpModel>::empty()) == (Seq::<Seq<OpModel>>::empty(), seq![c]));
            assert(pack(p.push(c), Seq::<OpModel>::empty()) == (Seq::<Seq<OpModel>>::empty(), p.push(c)));
            crate::reader::lemma_sums_bound(p);
        }
        let ghost e0 = emitted@;
        if self.win_size as u64 + l as u64 > MAX_WIN_SIZE as u64 {
            let header = SectionHeader {
                compression_algo: 0,
                format: Format::Interleaved,
                more_sections: true,
                num_operations: self.ops.len() as u32,
                num_add_bytes: self.num_add,
                output_size: self.win_size,
            };
            let mut closed: Vec<Op<Add>> = Vec::new();
            std::mem::swap(&mut closed, &mut self.ops);
            emitted.push((closed, header));
            self.win_size = 0;
            self.num_add = 0;
            proof {
                assert(models(self.ops@) =~= Seq::<OpModel>::empty());
                assert(emitted_models(emitted@) =~= emitted_models(e0) + seq![p]);
                assert(seq![p] + Seq::<Seq<OpModel>>::empty() =~= seq![p]);
                assert forall|k: int| 0 <= k < emitted@.len() implies {
                    &&& (#[trigger] emitted@[k]).1 == section_header_for(models(emitted@[k].0@), true)
                    &&& ops_oal_sum(models(emitted@[k].0@)) <= MAX_WIN_SIZE
                    &&& forall|i: int| 0 <= i < emitted@[k].0@.len() ==> op_emittable(#[trigger] models(emitted@[k].0@)[i])
                } by {
                    if k < e0.len() {
                        assert(emitted@[k] == e0[k]);
                    }
                }
            }
        } else {
            proof {
                assert(emitted_models(emitted@) =~= emitted_models(e0) + Seq::<Seq<OpModel>>::empty());
            }
        }
        let is_add = op.is_add();
        let ghost before = self.ops@;
        self.ops.push(op);
        proof {
            assert(models(self.ops@) =~= models(before).push(c));
            assert(models(self.ops@).drop_last() =~= models(before));
            assert(models(self.ops@).last() == c);
            assert(op_oal(c) == l);
            assert forall|i: int| 0 <= i < self.ops@.len() implies op_emittable(#[trigger] models(self.ops@)[i]) by {
                if i < before.len() {
                    assert(models(self.ops@)[i] == models(before)[i]);
                }
            }
        }
        proof {
            assert(ops_oal_sum(models(self.ops@)) == ops_oal_sum(models(before)) + op_oal(c));
            assert(ops_add_oal_sum(models(self.ops@)) == ops_add_oal_sum(models(before)) + if c is Add { op_oal(c) } else { 0 });
            assert(is_add == (c is Add));
        }
        self.win_size = self.win_size + l;
        if is_add {
            self.num_add = self.num_add + l;
        }
    }
}

/// Converts one event: the operations it stands for go into the open section in order,
/// closing sections that would grow past MAX_WIN_SIZE output bytes; a window event sets the
/// source; the output position moves on by what the event produces.
pub fn vcd_convert_step(st: VcdConvState, ev: VcdEvent) -> (r: (VcdConvState, Vec<(Vec<Op<Add>>, SectionHeader)>))
    requires
        conv_wf(st),
        event_ok(st, ev),
    ensures
        conv_wf(r.0),
        sections_ok(r.1@),
        (emitted_models(r.1@), models(r.0.ops@)) == pack(models(st.ops@), event_chunks(st, ev)),
        r.0.o_pos == event_o_pos(st, ev),
        ev matches VcdEvent::Window { ssp, target_source } ==> r.0.ssp == ssp && r.0.target_source == target_source,
        ev is EndOfWindow ==> r.0.ssp is None && !r.0.target_source,
        !(ev is Window) && !(ev is EndOfWindow) ==> r.0.ssp == st.ssp && r.0.target_source == st.target_source,
{
    let mut st = st;
    let ghost st0 = st;
    let ghost total = pack(models(st.ops@), event_chunks(st0, ev));
    let mut emitted: Vec<(Vec<Op<Add>>, SectionHeader)> = Vec::new();
    proof {
        assert(emitted_models(emitted@) =~= Seq::<Seq<OpModel>>::empty());
    }
    match ev {
        VcdEvent::Window { ssp, target_source } => {
            st.ssp = ssp;
            st.target_source = target_source;
        },
        VcdEvent::EndOfWindow => {
            st.ssp = None;
            st.target_source = false;
        },
        VcdEvent::Add(bytes) => {
            let total_len = bytes.len();
            let mut processed: usize = 0;
            proof {
                assert(bytes@.subrange(0, total_len as int) =~= bytes@);
            }
            while processed < total_len
                invariant
                    processed <= total_len == bytes@.len(),
                    conv_wf(st),
                    sections_ok(emitted@),
                    st.o_pos == st0.o_pos && st.ssp == st0.ssp && st.target_source == st0.target_source,
                    emitted_models(emitted@) + pack(models(st.ops@), add_chunks(bytes@.subrange(processed as int, total_len as int))).0 == total.0,
                    pack(models(st.ops@), add_chunks(bytes@.subrange(processed as int, total_len as int))).1 == total.1,
                    total == pack(models(st0.ops@), add_chunks(bytes@)),
                decreases total_len - processed,
            {
                let to_add = total_len - processed;
                let c = if to_add < MAX_INST_SIZE { to_add } else { MAX_INST_SIZE };
                let chunk = crate::reader::slice_to_vec(bytes.as_slice(), processed, processed + c);
                let ghost rest = bytes@.subrange(processed as int, total_len as int);
                let ghost p0 = models(st.ops@);
                let ghost e0 = emitted_models(emitted@);
                proof {
                    assert(rest.subrange(0, c as int) =~= chunk@);
                    assert(rest.subrange(c as int, rest.len() as int) =~= bytes@.subrange(processed + c, total_len as int));
                    assert(add_chunks(rest) == seq![OpModel::Add(chunk@)] + add_chunks(rest.subrange(c as int, rest.len() as int)));
                    lemma_pack_first(p0, OpModel::Add(chunk@), add_chunks(rest.subrange(c as int, rest.len() as int)));
                }
                st.push_chunk(Op::Add(Add { bytes: chunk }), &mut emitted);
                proof {
                    assert(e0 + pack(p0, seq![OpModel::Add(chunk@)]).0 + pack(models(st.ops@), add_chunks(bytes@.subrange(processed + c, total_len as int))).0
                        =~= e0 + (pack(p0, seq![OpModel::Add(chunk@)]).0 + pack(models(st.ops@), add_chunks(bytes@.subrange(processed + c, total_len as int))).0));
                }
                processed = processed + c;
            }
            proof {
                assert(bytes@.subrange(total_len as int, total_len as int) =~= Seq::<u8>::empty());
                assert(emitted_models(emitted@) + Seq::<Seq<OpModel>>::empty() =~= emitted_models(emitted@));
            }
            st.o_pos = st.o_pos + total_len as u64;
        },
        VcdEvent::Run { byte, len } => {
            let mut remaining: u32 = len;
            while remaining > 0
                invariant
                    conv_wf(st),
                    sections_ok(emitted@),
                    st.o_pos == st0.o_pos && st.ssp == st0.ssp && st.target_source == st0.target_source,
                    emitted_models(emitted@) + pack(models(st.ops@), run_chunks(byte, remaining as int)).0 == total.0,
                    pack(models(st.ops@), run_chunks(byte, remaining as int)).1 == total.1,
                    total == pack(models(st0.ops@), run_chunks(byte, len as int)),
                decreases remaining,
            {
                let c: u32 = if remaining < MAX_RUN_LEN as u32 { remaining } else { MAX_RUN_LEN as u32 };
                let ghost p0 = models(st.ops@);
                let ghost e0 = emitted_models(emitted@);
                let op_m = OpModel::Run(Run { byte, len: c as u8 });
                proof {
                    assert(run_chunks(byte, remaining as int) == seq![op_m] + run_chunks(byte, remaining - c));
                    lemma_pack_first(p0, op_m, run_chunks(byte, remaining - c));
                }
                st.push_chunk(Op::Run(Run { byte, len: c as u8 }), &mut emitted);
                proof {
                    assert(e0 + pack(p0, seq![op_m]).0 + pack(models(st.ops@), run_chunks(byte, remaining - c)).0
                        =~= e0 + (pack(p0, seq![op_m]).0 + pack(models(st.ops@), run_chunks(byte, remaining - c)).0));
                }
                remaining = remaining - c;
            }
            proof {
                assert(emitted_models(emitted@) + Seq::<Seq<OpModel>>::empty() =~= emitted_models(emitted@));
            }
            st.o_pos = st.o_pos + len as u64;
        },
        VcdEvent::Copy { kind, len_in_u, len_in_o } => {
            match kind {
                VcdCopy::Q { len_o } => {
                    let slice: u32 = len_in_u - len_o;
                    let addr: u64 = st.o_pos - slice as u64;
                    let mut remaining: u32 = len_o;
                    while remaining > 0
                        invariant
                            conv_wf(st),
                            sections_ok(emitted@),
                            1 <= slice <= MAX_INST_SIZE,
                            st.o_pos == st0.o_pos && st.ssp == st0.ssp && st.target_source == st0.target_source,
                            emitted_models(emitted@) + pack(models(st.ops@), repeat_copies(addr, slice as int, remaining as int)).0 == total.0,
                            pack(models(st.ops@), repeat_copies(addr, slice as int, remaining as int)).1 == total.1,
                        decreases remaining,
                    {
                        let c: u32 = if remaining < slice { remaining } else { slice };
                        let ghost p0 = models(st.ops@);
                        let ghost e0 = emitted_models(emitted@);
                        let op_m = OpModel::Copy(crate::common::Copy { src: CopySrc::Output, addr, len: c as u16 });
                        proof {
                            assert(repeat_copies(addr, slice as int, remaining as int) == seq![op_m] + repeat_copies(addr, slice as int, remaining - c));
                            lemma_pack_first(p0, op_m, repeat_copies(addr, slice as int, remaining - c));
                        }
                        st.push_chunk(Op::Copy(crate::common::Copy { src: CopySrc::Output, addr, len: c as u16 }), &mut emitted);
                        proof {
                            assert(e0 + pack(p0, seq![op_m]).0 + pack(models(st.ops@), repeat_copies(addr, slice as int, remaining - c)).0
                                =~= e0 + (pack(p0, seq![op_m]).0 + pack(models(st.ops@), repeat_copies(addr, slice as int, remaining - c)).0));
                        }
                        remaining = remaining - c;
                    }
                    proof {
                        assert(emitted_models(emitted@) + Seq::<Seq<OpModel>>::empty() =~= emitted_models(emitted@));
                    }
                    st.o_pos = st.o_pos + len_o as u64;
                },
                _ => {
                    let (src, start): (CopySrc, u64) = match kind {
                        VcdCopy::S { u_pos } => {
                            let s = match st.ssp {
                                Some(s) => s,
                                None => 0,
                            };
                            (if st.target_source { CopySrc::Output } else { CopySrc::Dict }, s + u_pos as u64)
                        },
                        VcdCopy::T { inst_u_pos_start, u_pos } => (CopySrc::Output, st.o_pos - (inst_u_pos_start - u_pos) as u64),
                        _ => (CopySrc::Output, 0),
                    };
                    let mut done: u32 = 0;
                    proof {
                        assert(event_chunks(st0, ev) == copy_chunks(src, start as int, len_in_o as int));
                    }
                    while done < len_in_o
                        invariant
                            done <= len_in_o,
                            start + len_in_o <= u64::MAX,
                            conv_wf(st),
                            sections_ok(emitted@),
                            st.o_pos == st0.o_pos && st.ssp == st0.ssp && st.target_source == st0.target_source,
                            emitted_models(emitted@) + pack(models(st.ops@), copy_chunks(src, start + done, len_in_o - done)).0 == total.0,
                            pack(models(st.ops@), copy_chunks(src, start + done, len_in_o - done)).1 == total.1,
                        decreases len_in_o - done,
                    {
                        let rem = len_in_o - done;
                        let c: u32 = if (rem as usize) < MAX_INST_SIZE { rem } else { MAX_INST_SIZE as u32 };
                        let addr = start + done as u64;
                        let ghost p0 = models(st.ops@);
                        let ghost e0 = emitted_models(emitted@);
                        let op_m = OpModel::Copy(crate::common::Copy { src, addr, len: c as u16 });
                        proof {
                            assert(copy_chunks(src, start + done, len_in_o - done) == seq![op_m] + copy_chunks(src, start + done + c, len_in_o - done - c));
                            lemma_pack_first(p0, op_m, copy_chunks(src, start + done + c, len_in_o - done - c));
                        }
                        st.push_chunk(Op::Copy(crate::common::Copy { src, addr, len: c as u16 }), &mut emitted);
                        proof {
                            assert(e0 + pack(p0, seq![op_m]).0 + pack(models(st.ops@), copy_chunks(src, start + done + c, len_in_o - done - c)).0
                                =~= e0 + (pack(p0, seq![op_m]).0 + pack(models(st.ops@), copy_chunks(src, start + done + c, len_in_o - done - c)).0));
                        }
                        done = done + c;
                    }
                    proof {
                        assert(emitted_models(emitted@) + Seq::<Seq<OpModel>>::empty() =~= emitted_models(emitted@));
                    }
                    st.o_pos = st.o_pos + len_in_u as u64;
                },
            }
        },
    }
    (st, emitted)
}

/// Ends a conversion: the open section becomes the terminal one.
pub fn vcd_convert_finish(st: VcdConvState) -> (r: (Vec<Op<Add>>, SectionHeader))
    requires
        conv_wf(st),
    ensures
        r.0@ == st.ops@,
        r.1 == section_header_for(models(st.ops@), false),
{
    let header = SectionHeader {
        compression_algo: 0,
        format: Format::Interleaved,
        more_sections: false,
        num_operations: st.ops.len() as u32,
        num_add_bytes: st.num_add,
        output_size: st.win_size,
    };
    (st.ops, header)
}

/// The output bytes of one operation in front of others add up.
proof fn lemma_oal_sum_cons(a: OpModel, rest: Seq<OpModel>)
    ensures
        ops_oal_sum(seq![a] + rest) == op_oal(a) + ops_oal_sum(rest),
{
    lemma_oal_sum_concat(seq![a], rest);
    assert(seq![a].drop_last() =~= Seq::<OpModel>::empty());
    assert(seq![a].last() == a);
    assert(ops_oal_sum(Seq::<OpModel>::empty()) == 0);
}

/// The output bytes of two runs of operations add up.
pub proof fn lemma_oal_sum_concat(a: Seq<OpModel>, b: Seq<OpModel>)
    ensures
        ops_oal_sum(a + b) == ops_oal_sum(a) + ops_oal_sum(b),
    decreases b.len(),
{
    if b.len() == 0 {
        assert(a + b =~= a);
    } else {
        lemma_oal_sum_concat(a, b.drop_last());
        assert((a + b).drop_last() =~= a + b.drop_last());
    }
}

/// Add chunks produce the bytes they carry.
proof fn lemma_add_chunks_len(b: Seq<u8>)
    ensures
        ops_oal_sum(add_chunks(b)) == b.len(),
    decreases b.len(),
{
    if b.len() > 0 {
        let c = if b.len() < MAX_INST_SIZE { b.len() as int } else { MAX_INST_SIZE as int };
        lemma_add_chunks_len(b.subrange(c, b.len() as int));
        lemma_oal_sum_cons(OpModel::Add(b.subrange(0, c)), add_chunks(b.subrange(c, b.len() as int)));
    }
}

/// Run chunks produce the run's length.
proof fn lemma_run_chunks_len(byte: u8, len: int)
    requires
        len >= 0,
    ensures
        ops_oal_sum(run_chunks(byte, len)) == len,
    decreases len,
{
    if len > 0 {
        let c = if len < MAX_RUN_LEN { len } else { MAX_RUN_LEN as int };
        lemma_run_chunks_len(byte, len - c);
        lemma_oal_sum_cons(OpModel::Run(Run { byte, len: c as u8 }), run_chunks(byte, len - c));
    }
}

/// Copy chunks produce the copy's length.
proof fn lemma_copy_chunks_len(src: CopySrc, addr: int, len: int)
    requires
        len >= 0,
    ensures
        ops_oal_sum(copy_chunks(src, addr, len)) == len,
    decreases len,
{
    if len > 0 {
        let c = if len < MAX_INST_SIZE { len } else { MAX_INST_SIZE as int };
        lemma_copy_chunks_len(src, addr + c, len - c);
        lemma_oal_sum_cons(OpModel::Copy(crate::common::Copy { src, addr: addr as u64, len: c as u16 }), copy_chunks(src, addr + c, len - c));
    }
}

/// Repeated copies produce the repeated length.
proof fn lemma_repeat_copies_len(addr: u64, slice: int, remaining: int)
    requires
        1 <= slice <= MAX_INST_SIZE,
        remaining >= 0,
    ensures
        ops_oal_sum(repeat_copies(addr, slice, remaining)) == remaining,
    decreases remaining,
{
    if remaining > 0 {
        let c = if remaining < slice { remaining } else { slice };
        lemma_repeat_copies_len(addr, slice, remaining - c);
        lemma_oal_sum_cons(OpModel::Copy(crate::common::Copy { src: CopySrc::Output, addr, len: c as u16 }), repeat_copies(addr, slice, remaining - c));
    }
}

/// Converting an event moves the output position on by exactly the bytes its operations
/// produce: an ADD by its bytes, a RUN by its length, a copy by its length in the target
/// window (for a copy of the bytes being produced, the bytes it produces, not its length in
/// the superstring); a window event by nothing. (For source and target copies the VCDIFF
/// reader reports the same length in the superstring and in the target window.)
pub proof fn lemma_event_advances(st: VcdConvState, ev: VcdEvent)
    requires
        event_ok(st, ev),
        ev matches VcdEvent::Copy { kind, len_in_u, len_in_o } ==> (kind is Q || len_in_u == len_in_o),
    ensures
        st.o_pos + ops_oal_sum(event_chunks(st, ev)) == event_o_pos(st, ev),
{
    match ev {
        VcdEvent::Add(b) => lemma_add_chunks_len(b@),
        VcdEvent::Run { byte, len } => lemma_run_chunks_len(byte, len as int),
        VcdEvent::Copy { kind, len_in_u, len_in_o } => match kind {
            VcdCopy::S { u_pos } => lemma_copy_chunks_len(if st.target_source { CopySrc::Output } else { CopySrc::Dict }, st.ssp->0 + u_pos, len_in_o as int),
            VcdCopy::T { inst_u_pos_start, u_pos } => lemma_copy_chunks_len(CopySrc::Output, st.o_pos - (inst_u_pos_start - u_pos), len_in_o as int),
            VcdCopy::Q { len_o } => lemma_repeat_copies_len((st.o_pos - (len_in_u - len_o)) as u64, len_in_u - len_o, len_o as int),
        },
        _ => {},
    }
}

/// What one conversion step hands back (the sections it closed, then the section left open)
/// holds the open section it was given followed by exactly as many output bytes as the
/// output position moved on.
pub proof fn lemma_step_output_size(st: VcdConvState, ev: VcdEvent, closed: Seq<Seq<OpModel>>, open: Seq<OpModel>, o_pos: u64)
    requires
        event_ok(st, ev),
        ev matches VcdEvent::Copy { kind, len_in_u, len_in_o } ==> (kind is Q || len_in_u == len_in_o),
        (closed, open) == pack(models(st.ops@), event_chunks(st, ev)),
        o_pos == event_o_pos(st, ev),
    ensures
        ops_oal_sum(concat_all(closed) + open) == ops_oal_sum(models(st.ops@)) + (o_pos - st.o_pos),
{
    lemma_pack_keeps(models(st.ops@), event_chunks(st, ev));
    lemma_oal_sum_concat(models(st.ops@), event_chunks(st, ev));
    lemma_event_advances(st, ev);
}

} // verus!
