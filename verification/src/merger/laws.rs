//! What merging and transcoding keep: a merged summary gives, from the first source, what
//! applying the merged patches one after the other gives; a transcoded patch gives what its
//! input gives.
use vstd::prelude::*;
use crate::common::{op_len, op_oal, CopySrc, OpModel, SmdiffError};
use crate::decoder::{
    apply_op_spec, apply_ops_spec, decode_patch_spec, decoded_section_spec, lemma_apply_concat, lemma_decoded_section_bounds,
    plain_patch_spec,
};
use crate::merger::transcoder::{convert_spec, from_sparse, join_adds_spec, join_runs_spec, transcoded_ops, InnerModel};
use crate::encoder::op_maker::{add_chunks, add_ops_spec, lemma_apply_one, repeat, run_chunks, run_copies, run_ops_spec, COPY_LIMIT, RUN_LIMIT};
use crate::common::{Format, Run, SectionHeader, MAX_INST_SIZE, MAX_RUN_LEN};
use crate::decoder::{iter_from, written_ops};
use crate::encoder::config::SecondaryCompression;
use crate::encoder::section::{encoded_as, lemma_encoded_decodes, lemma_encoded_reads_back};
use crate::writer::clamp_section_size;
use crate::reader::{all_roundtrip_models, lemma_read_body_gives_roundtrip, lemma_read_header_bounds, op_roundtrips, read_section_header_spec};
use crate::merger::{
    format_or_interleaved, win_or_max, SummaryPatch, clip, copy_fits, covers, deref_spec, exact_slice_spec, extract_spec, flat_resolve, is_copy_d, merge_spec, ops_of,
    patch_ops_spec, place, predecessor_spec, resolvable, resolve_one, skip_model, slice_from, sop_end, terminal_spec_of,
    trunc_model,
};

verus! {

// ---------------------------------------------------------------------------
// What a patch's operations are
// ---------------------------------------------------------------------------
/// Every operation of a decoded section round-trips.
pub proof fn lemma_decoded_section_roundtrip(s: Seq<u8>, p: int)
    ensures
        decoded_section_spec(s, p) matches Ok((h, ops, q)) ==> all_roundtrip_models(ops),
{
    lemma_read_header_bounds(s, p);
    if let Ok((h, p1)) = read_section_header_spec(s, p) {
        if h.compression_algo == 1 {
            if let Ok((win, q)) = plain_patch_spec(s, p1, None, Seq::empty()) {
                lemma_read_body_gives_roundtrip(win, 0, h);
            }
        } else if h.compression_algo == 2 || h.compression_algo == 4 {
            let dec = if h.compression_algo == 2 {
                crate::decoder::zstd_frame_decoded(s.subrange(p1, s.len() as int))
            } else {
                crate::decoder::brotli_stream_decoded(s.subrange(p1, s.len() as int))
            };
            if let Some((win, rest)) = dec {
                lemma_read_body_gives_roundtrip(win, 0, h);
            }
        } else if h.compression_algo != 3 {
            lemma_read_body_gives_roundtrip(s, p1, h);
        }
    }
}

/// Every operation read from a patch round-trips.
pub proof fn lemma_patch_ops_roundtrip(s: Seq<u8>, p: int)
    ensures
        patch_ops_spec(s, p) matches Ok(ops) ==> all_roundtrip_models(ops),
    decreases s.len() - p,
{
    lemma_decoded_section_roundtrip(s, p);
    lemma_decoded_section_bounds(s, p);
    if let Ok((h, ops, q)) = decoded_section_spec(s, p) {
        if h.more_sections {
            lemma_patch_ops_roundtrip(s, q);
            if let Ok(rest) = patch_ops_spec(s, q) {
                assert forall|i: int| 0 <= i < (ops + rest).len() implies op_roundtrips(#[trigger] (ops + rest)[i]) by {
                    if i >= ops.len() {
                        assert((ops + rest)[i] == rest[i - ops.len()]);
                    }
                }
            }
        }
    }
}

/// Decoding a patch applies its operations, one after the other.
pub proof fn lemma_decode_is_apply(s: Seq<u8>, p: int, src: Option<Seq<u8>>, out: Seq<u8>)
    ensures
        patch_ops_spec(s, p) matches Ok(ops) ==> decode_patch_spec(s, p, src, out) == apply_ops_spec(out, src, ops),
    decreases s.len() - p,
{
    lemma_decoded_section_bounds(s, p);
    if let Ok((h, ops, q)) = decoded_section_spec(s, p) {
        if h.more_sections {
            if let Ok(rest) = patch_ops_spec(s, q) {
                lemma_apply_concat(out, src, ops, rest);
                if let Ok(o) = apply_ops_spec(out, src, ops) {
                    lemma_decode_is_apply(s, q, src, o);
                }
            }
        }
    }
}

// ---------------------------------------------------------------------------
// Layout of sparse operations
// ---------------------------------------------------------------------------
/// Sparse operations laid out from 0, each starting where the previous one ends, the last
/// ending at `end`.
pub open spec fn laid_out(s: Seq<(u64, OpModel)>, end: int) -> bool {
    &&& forall|k: int| 0 <= k < s.len() - 1 ==> #[trigger] sop_end(s[k]) == s[k + 1].0
    &&& s.len() > 0 ==> s[0].0 == 0
    &&& s.len() == 0 ==> end == 0
    &&& s.len() > 0 ==> sop_end(s.last()) == end
}

/// An operation that produces its bytes without looking at the output so far (no output
/// copy), records its length faithfully and, if a copy, copies a range that fits a u64.
pub open spec fn free_op(op: OpModel) -> bool {
    &&& !(op matches OpModel::Copy(c) && c.src is Output)
    &&& op_len(op) < 0x10000
    &&& copy_fits(op)
}

/// Every operation is a free one.
pub open spec fn all_free(ops: Seq<OpModel>) -> bool {
    forall|i: int| 0 <= i < ops.len() ==> free_op(#[trigger] ops[i])
}

/// Sparse operations laid out from 0 that are all free: a summary a merge can work with.
pub open spec fn summary_ready(s: Seq<(u64, OpModel)>) -> bool {
    &&& exists|end: int| laid_out(s, end)
    &&& all_free(ops_of(s))
}

/// One more operation, starting where the others end.
proof fn lemma_layout_push(o: Seq<(u64, OpModel)>, c: u64, op: OpModel)
    requires
        laid_out(o, c as int),
    ensures
        laid_out(o.push((c, op)), c + op_oal(op)),
        ops_of(o.push((c, op))) == ops_of(o).push(op),
{
    let o2 = o.push((c, op));
    assert forall|k: int| 0 <= k < o2.len() - 1 implies #[trigger] sop_end(o2[k]) == o2[k + 1].0 by {
        assert(o2[k] == o[k]);
        if k < o.len() - 1 {
            assert(o2[k + 1] == o[k + 1]);
        }
    }
    assert(ops_of(o2) =~= ops_of(o).push(op));
}

/// Placing operations lays them out after the ones already there.
pub proof fn lemma_place_layout(out: Seq<(u64, OpModel)>, cur: u64, ops: Seq<OpModel>)
    requires
        laid_out(out, cur as int),
    ensures
        place(out, cur, ops) matches Some((o2, c2)) ==> laid_out(o2, c2 as int) && ops_of(o2) == ops_of(out) + ops,
    decreases ops.len(),
{
    if ops.len() == 0 {
        assert(ops_of(out) + ops =~= ops_of(out));
    } else {
        lemma_place_layout(out, cur, ops.drop_last());
        if let Some((o, c)) = place(out, cur, ops.drop_last()) {
            let op = ops.last();
            lemma_layout_push(o, c, op);
            assert(ops_of(out) + ops =~= (ops_of(out) + ops.drop_last()).push(op));
        }
    }
}

/// The extraction lays the operations out from 0 and keeps them as they are.
pub proof fn lemma_extract_layout(ops: Seq<OpModel>)
    ensures
        extract_spec(ops) matches Some((sp, st, pos)) ==> laid_out(sp, pos as int) && ops_of(sp) == ops
            && forall|k: int| 0 <= k < ops.len() ==> copy_fits(#[trigger] ops[k]),
    decreases ops.len(),
{
    if ops.len() == 0 {
        assert(ops_of(Seq::<(u64, OpModel)>::empty()) =~= ops);
    } else {
        lemma_extract_layout(ops.drop_last());
        if let Some((sp, st, pos)) = extract_spec(ops) {
            let (sp0, st0, pos0) = extract_spec(ops.drop_last())->Some_0;
            let op = ops.last();
            assert(sp == sp0.push((pos0, op)));
            lemma_layout_push(sp0, pos0, op);
            assert(ops.drop_last().push(op) =~= ops);
            assert forall|k: int| 0 <= k < ops.len() implies copy_fits(#[trigger] ops[k]) by {
                if k < ops.len() - 1 {
                    assert(ops[k] == ops.drop_last()[k]);
                }
            }
        }
    }
}

// ---------------------------------------------------------------------------
// Bytes of free operations
// ---------------------------------------------------------------------------
/// The bytes a free operation produces from the source, whatever was output before it;
/// None where a dictionary copy has no source or reads past it.
pub open spec fn free_bytes(op: OpModel, src: Option<Seq<u8>>) -> Option<Seq<u8>> {
    match op {
        OpModel::Add(b) => Some(b),
        OpModel::Run(r) => Some(Seq::new(r.len as nat, |i: int| r.byte)),
        OpModel::Copy(c) => match src {
            Some(s) => if c.src is Dict && c.addr + c.len <= s.len() {
                Some(s.subrange(c.addr as int, c.addr + c.len))
            } else {
                None
            },
            None => None,
        },
    }
}

/// The bytes free operations produce one after the other.
pub open spec fn free_all(ops: Seq<OpModel>, src: Option<Seq<u8>>) -> Option<Seq<u8>>
    decreases ops.len(),
{
    if ops.len() == 0 {
        Some(Seq::empty())
    } else {
        match (free_all(ops.drop_last(), src), free_bytes(ops.last(), src)) {
            (Some(a), Some(b)) => Some(a + b),
            _ => None,
        }
    }
}

/// A free operation's bytes are as long as the operation.
pub proof fn lemma_free_bytes_len(op: OpModel, src: Option<Seq<u8>>)
    ensures
        free_bytes(op, src) matches Some(b) ==> b.len() == op_len(op),
{
}

/// Applying free operations appends the bytes they produce; it fails where they produce none.
pub proof fn lemma_apply_free(out: Seq<u8>, src: Option<Seq<u8>>, ops: Seq<OpModel>)
    requires
        all_free(ops),
    ensures
        apply_ops_spec(out, src, ops) is Ok <==> free_all(ops, src) is Some,
        free_all(ops, src) matches Some(b) ==> apply_ops_spec(out, src, ops) == Ok::<Seq<u8>, SmdiffError>(out + b),
    decreases ops.len(),
{
    if ops.len() > 0 {
        let dl = ops.drop_last();
        assert forall|i: int| 0 <= i < dl.len() implies free_op(#[trigger] dl[i]) by {
            assert(dl[i] == ops[i]);
        }
        lemma_apply_free(out, src, dl);
        assert(free_op(ops[ops.len() - 1]));
        if let Some(a) = free_all(dl, src) {
            let o = out + a;
            if let Some(b) = free_bytes(ops.last(), src) {
                assert(o + b =~= out + (a + b));
            }
        }
    }
}

/// The bytes of `a + b` are those of `a`, then those of `b`.
pub proof fn lemma_free_all_concat(a: Seq<OpModel>, b: Seq<OpModel>, src: Option<Seq<u8>>)
    ensures
        free_all(a + b, src) == match (free_all(a, src), free_all(b, src)) {
            (Some(x), Some(y)) => Some(x + y),
            _ => None,
        },
    decreases b.len(),
{
    if b.len() == 0 {
        assert(a + b =~= a);
        if let Some(x) = free_all(a, src) {
            assert(x + Seq::<u8>::empty() =~= x);
        }
    } else {
        lemma_free_all_concat(a, b.drop_last(), src);
        assert((a + b).drop_last() =~= a + b.drop_last());
        assert((a + b).last() == b.last());
        if let (Some(x), Some(y)) = (free_all(a, src), free_all(b.drop_last(), src)) {
            if let Some(z) = free_bytes(b.last(), src) {
                assert(x + y + z =~= x + (y + z));
            }
        }
    }
}

/// One free operation produces its own bytes.
proof fn lemma_free_all_single(op: OpModel, src: Option<Seq<u8>>)
    ensures
        free_all(seq![op], src) == free_bytes(op, src),
{
    let s = seq![op];
    assert(s.drop_last() =~= Seq::<OpModel>::empty());
    assert(s.last() == op);
    assert(free_all(s.drop_last(), src) == Some(Seq::<u8>::empty()));
    if let Some(b) = free_bytes(op, src) {
        assert(Seq::<u8>::empty() + b =~= b);
    }
}

/// Free operations laid out from 0 produce, each, the output bytes at its own positions.
pub proof fn lemma_layout_bytes(d: Seq<(u64, OpModel)>, end: int, src: Option<Seq<u8>>, o: Seq<u8>)
    requires
        laid_out(d, end),
        all_free(ops_of(d)),
        free_all(ops_of(d), src) == Some(o),
    ensures
        o.len() == end,
        forall|k: int| 0 <= k < d.len() ==> (#[trigger] d[k]).0 <= sop_end(d[k]) <= end
            && free_bytes(d[k].1, src) == Some(o.subrange(d[k].0 as int, sop_end(d[k]))),
    decreases d.len(),
{
    if d.len() > 0 {
        let dl = d.drop_last();
        let x = d.last();
        assert(ops_of(d).drop_last() =~= ops_of(dl));
        assert(ops_of(d).last() == x.1);
        assert forall|i: int| 0 <= i < ops_of(dl).len() implies free_op(#[trigger] ops_of(dl)[i]) by {
            assert(ops_of(dl)[i] == ops_of(d)[i]);
        }
        assert(laid_out(dl, x.0 as int)) by {
            assert forall|k: int| 0 <= k < dl.len() - 1 implies #[trigger] sop_end(dl[k]) == dl[k + 1].0 by {
                assert(dl[k] == d[k]);
                assert(dl[k + 1] == d[k + 1]);
                assert(sop_end(d[k]) == d[k + 1].0);
            }
            if dl.len() > 0 {
                assert(sop_end(d[dl.len() - 1]) == d[dl.len() as int].0);
                assert(dl.last() == d[dl.len() - 1]);
                assert(dl[0] == d[0]);
            }
        }
        let a = free_all(ops_of(dl), src)->Some_0;
        let b = free_bytes(x.1, src)->Some_0;
        lemma_layout_bytes(dl, x.0 as int, src, a);
        assert(free_op(ops_of(d)[d.len() - 1]));
        lemma_free_bytes_len(x.1, src);
        assert(o == a + b);
        assert(op_oal(x.1) == op_len(x.1));
        assert forall|k: int| 0 <= k < d.len() implies (#[trigger] d[k]).0 <= sop_end(d[k]) <= end
            && free_bytes(d[k].1, src) == Some(o.subrange(d[k].0 as int, sop_end(d[k]))) by {
            if k < d.len() - 1 {
                assert(d[k] == dl[k]);
                assert(o.subrange(d[k].0 as int, sop_end(d[k])) =~= a.subrange(d[k].0 as int, sop_end(d[k])));
            } else {
                assert(d[k] == x);
                assert(o.subrange(x.0 as int, sop_end(x)) =~= b);
            }
        }
    }
}

/// Skipping the first `amt` bytes of a free operation drops them from what it produces.
proof fn lemma_skip_bytes(op: OpModel, amt: nat, src: Option<Seq<u8>>, b: Seq<u8>)
    requires
        free_op(op),
        free_bytes(op, src) == Some(b),
        amt <= b.len(),
    ensures
        free_op(skip_model(op, amt)),
        free_bytes(skip_model(op, amt), src) == Some(b.subrange(amt as int, b.len() as int)),
{
    match op {
        OpModel::Add(a) => {},
        OpModel::Run(r) => {
            assert(Seq::new((r.len - amt) as u8 as nat, |i: int| r.byte) =~= b.subrange(amt as int, b.len() as int));
        },
        OpModel::Copy(c) => {
            let sv = src->Some_0;
            assert(sv.subrange(c.addr + amt, c.addr + amt + (c.len - amt)) =~= b.subrange(amt as int, b.len() as int));
        },
    }
}

/// Dropping the last `amt` bytes of a free operation drops them from what it produces.
proof fn lemma_trunc_bytes(op: OpModel, amt: nat, src: Option<Seq<u8>>, b: Seq<u8>)
    requires
        free_op(op),
        free_bytes(op, src) == Some(b),
        amt <= b.len(),
    ensures
        free_op(trunc_model(op, amt)),
        free_bytes(trunc_model(op, amt), src) == Some(b.subrange(0, b.len() - amt)),
{
    match op {
        OpModel::Add(a) => {},
        OpModel::Run(r) => {
            assert(Seq::new((r.len - amt) as u8 as nat, |i: int| r.byte) =~= b.subrange(0, b.len() - amt));
        },
        OpModel::Copy(c) => {
            let sv = src->Some_0;
            assert(sv.subrange(c.addr as int, c.addr + (c.len - amt)) =~= b.subrange(0, b.len() - amt));
        },
    }
}

/// A free operation clipped to [start, end_pos) produces the output bytes at the positions it
/// keeps.
proof fn lemma_clip_bytes(x: (u64, OpModel), start: int, end_pos: int, src: Option<Seq<u8>>, o: Seq<u8>)
    requires
        free_op(x.1),
        x.0 <= sop_end(x) <= o.len(),
        free_bytes(x.1, src) == Some(o.subrange(x.0 as int, sop_end(x))),
        (if start > x.0 { start } else { x.0 as int }) <= (if end_pos < sop_end(x) { end_pos } else { sop_end(x) }),
    ensures
        free_op(clip(x, start, end_pos).1),
        free_bytes(clip(x, start, end_pos).1, src) == Some(o.subrange(
            if start > x.0 { start } else { x.0 as int },
            if end_pos < sop_end(x) { end_pos } else { sop_end(x) },
        )),
{
    reveal(clip);
    let lo = if start > x.0 { start } else { x.0 as int };
    let hi = if end_pos < sop_end(x) { end_pos } else { sop_end(x) };
    let b = o.subrange(x.0 as int, sop_end(x));
    lemma_free_bytes_len(x.1, src);
    let op1 = if start > x.0 { skip_model(x.1, (start - x.0) as nat) } else { x.1 };
    let b1 = o.subrange(lo, sop_end(x));
    if start > x.0 {
        lemma_skip_bytes(x.1, (start - x.0) as nat, src, b);
        assert(b.subrange(start - x.0, b.len() as int) =~= b1);
    } else {
        assert(b =~= b1);
    }
    if end_pos < sop_end(x) {
        lemma_trunc_bytes(op1, (sop_end(x) - end_pos) as nat, src, b1);
        assert(b1.subrange(0, b1.len() - (sop_end(x) - end_pos)) =~= o.subrange(lo, hi));
    } else {
        assert(b1 =~= o.subrange(lo, hi));
    }
}

/// Each operation of free operations laid out over `o` produces the bytes of `o` at its
/// positions.
pub open spec fn produces_layout(s: Seq<(u64, OpModel)>, src: Option<Seq<u8>>, o: Seq<u8>) -> bool {
    &&& laid_out(s, o.len() as int)
    &&& all_free(ops_of(s))
    &&& forall|k: int| 0 <= k < s.len() ==> (#[trigger] s[k]).0 <= sop_end(s[k]) <= o.len()
        && free_bytes(s[k].1, src) == Some(o.subrange(s[k].0 as int, sop_end(s[k])))
}

/// Free operations laid out from 0 that produce `o` produce it operation by operation.
proof fn lemma_produces_layout(d: Seq<(u64, OpModel)>, end: int, src: Option<Seq<u8>>, o: Seq<u8>)
    requires
        laid_out(d, end),
        all_free(ops_of(d)),
        free_all(ops_of(d), src) == Some(o),
    ensures
        produces_layout(d, src, o),
        o.len() == end,
{
    lemma_layout_bytes(d, end, src, o);
}

/// The ops of `seq![x] + r`.
proof fn lemma_ops_of_cons(x: (u64, OpModel), r: Seq<(u64, OpModel)>)
    ensures
        ops_of(seq![x] + r) == seq![x.1] + ops_of(r),
{
    assert(ops_of(seq![x] + r) =~= seq![x.1] + ops_of(r));
}

/// The slice from index `k` produces the bytes of `o` from where its first operation is clipped
/// to `end_pos`.
proof fn lemma_slice_from_bytes(s: Seq<(u64, OpModel)>, k: int, start: int, end_pos: int, src: Option<Seq<u8>>, o: Seq<u8>)
    requires
        produces_layout(s, src, o),
        0 <= k < s.len(),
        (if start > s[k].0 { start } else { s[k].0 as int }) <= sop_end(s[k]),
        (if start > s[k].0 { start } else { s[k].0 as int }) <= end_pos,
        slice_from(s, k, start, end_pos) is Some,
    ensures
        end_pos <= o.len(),
        all_free(ops_of(slice_from(s, k, start, end_pos)->Some_0)),
        free_all(ops_of(slice_from(s, k, start, end_pos)->Some_0), src) == Some(o.subrange(
            if start > s[k].0 { start } else { s[k].0 as int },
            end_pos,
        )),
    decreases s.len() - k,
{
    reveal(slice_from);
    let x = s[k];
    let lo = if start > x.0 { start } else { x.0 as int };
    assert(x.0 <= sop_end(x) <= o.len());
    assert(ops_of(s)[k] == x.1);
    assert(free_op(x.1));
    let c = clip(x, start, end_pos);
    let res = slice_from(s, k, start, end_pos)->Some_0;
    if sop_end(x) >= end_pos {
        lemma_clip_bytes(x, start, end_pos, src, o);
        assert(res == seq![c]);
        assert(ops_of(res) =~= seq![c.1]);
        lemma_free_all_single(c.1, src);
        assert forall|i: int| 0 <= i < ops_of(res).len() implies free_op(#[trigger] ops_of(res)[i]) by {
            assert(ops_of(res)[i] == c.1);
        }
        assert(o.subrange(lo, if end_pos < sop_end(x) { end_pos } else { sop_end(x) }) =~= o.subrange(lo, end_pos));
    } else {
        lemma_clip_bytes(x, start, end_pos, src, o);
        assert(k + 1 < s.len());
        let rest = slice_from(s, k + 1, start, end_pos)->Some_0;
        assert(res == seq![c] + rest);
        assert(sop_end(s[k]) == s[k + 1].0);
        let y = s[k + 1];
        assert(y.0 <= sop_end(y));
        lemma_slice_from_bytes(s, k + 1, start, end_pos, src, o);
        lemma_ops_of_cons(c, rest);
        lemma_free_all_single(c.1, src);
        lemma_free_all_concat(seq![c.1], ops_of(rest), src);
        assert(o.subrange(lo, sop_end(x)) + o.subrange(y.0 as int, end_pos) =~= o.subrange(lo, end_pos));
        assert forall|i: int| 0 <= i < ops_of(res).len() implies free_op(#[trigger] ops_of(res)[i]) by {
            if i == 0 {
                assert(ops_of(res)[i] == c.1);
            } else {
                assert(ops_of(res)[i] == ops_of(rest)[i - 1]);
            }
        }
    }
}

/// The exact slice of free operations laid out over `o` produces the bytes of `o` in the range.
pub proof fn lemma_exact_slice_bytes(s: Seq<(u64, OpModel)>, a: int, l: int, src: Option<Seq<u8>>, o: Seq<u8>)
    requires
        produces_layout(s, src, o),
        0 <= l,
        exact_slice_spec(s, a, l) is Some,
    ensures
        a + l <= o.len(),
        all_free(ops_of(exact_slice_spec(s, a, l)->Some_0)),
        free_all(ops_of(exact_slice_spec(s, a, l)->Some_0), src) == Some(o.subrange(a, a + l)),
{
    let i = choose|i: int| 0 <= i < s.len() && covers(s[i], a);
    assert(covers(s[i], a));
    lemma_slice_from_bytes(s, i, a, a + l, src, o);
}

/// Applying one operation is applying the sequence of just that operation.
proof fn lemma_apply_single(out: Seq<u8>, src: Option<Seq<u8>>, op: OpModel)
    ensures
        apply_ops_spec(out, src, seq![op]) == apply_op_spec(out, src, op),
{
    let s = seq![op];
    assert(s.drop_last() =~= Seq::<OpModel>::empty());
    assert(s.last() == op);
    assert(apply_ops_spec(out, src, s.drop_last()) == Ok::<Seq<u8>, SmdiffError>(out));
}

/// Free operations, one after the other, are free.
proof fn lemma_all_free_concat(a: Seq<OpModel>, b: Seq<OpModel>)
    requires
        all_free(a),
        all_free(b),
    ensures
        all_free(a + b),
{
    assert forall|i: int| 0 <= i < (a + b).len() implies free_op(#[trigger] (a + b)[i]) by {
        if i < a.len() {
            assert((a + b)[i] == a[i]);
        } else {
            assert((a + b)[i] == b[i - a.len()]);
        }
    }
}

/// Operations that are faithfully recorded and whose copies fit.
pub open spec fn recorded(ext: Seq<(u64, OpModel)>) -> bool {
    forall|k: int| 0 <= k < ext.len() ==> op_len((#[trigger] ext[k]).1) < 0x10000 && copy_fits(ext[k].1)
}

/// Resolving the output copies of operations that apply to `o` gives free operations, laid out
/// from 0, that produce `o`.
pub proof fn lemma_deref_bytes(ext: Seq<(u64, OpModel)>, src: Option<Seq<u8>>, o: Seq<u8>)
    requires
        recorded(ext),
        apply_ops_spec(Seq::empty(), src, ops_of(ext)) == Ok::<Seq<u8>, SmdiffError>(o),
        deref_spec(ext) is Some,
    ensures
        laid_out(deref_spec(ext)->Some_0.0, deref_spec(ext)->Some_0.1 as int),
        produces_layout(deref_spec(ext)->Some_0.0, src, o),
        free_all(ops_of(deref_spec(ext)->Some_0.0), src) == Some(o),
        deref_spec(ext)->Some_0.1 == o.len(),
    decreases ext.len(),
{
    let (d, cur) = deref_spec(ext)->Some_0;
    if ext.len() == 0 {
        assert(o == Seq::<u8>::empty());
        assert(ops_of(d) =~= Seq::<OpModel>::empty());
        lemma_produces_layout(d, 0, src, o);
    } else {
        let e1 = ext.drop_last();
        let op = ext.last().1;
        assert(ops_of(ext).drop_last() =~= ops_of(e1));
        assert(ops_of(ext).last() == op);
        assert forall|k: int| 0 <= k < e1.len() implies op_len((#[trigger] e1[k]).1) < 0x10000 && copy_fits(e1[k].1) by {
            assert(e1[k] == ext[k]);
        }
        let o1 = apply_ops_spec(Seq::empty(), src, ops_of(e1))->Ok_0;
        lemma_deref_bytes(e1, src, o1);
        let (d1, cur1) = deref_spec(e1)->Some_0;
        assert(ext[ext.len() - 1] == ext.last());
        if op matches OpModel::Copy(cc) && cc.src is Output {
            let c = op->Copy_0;
            let res = exact_slice_spec(d1, c.addr as int, c.len as int)->Some_0;
            lemma_exact_slice_bytes(d1, c.addr as int, c.len as int, src, o1);
            assert(o == o1 + o1.subrange(c.addr as int, c.addr + c.len));
            lemma_place_layout(d1, cur1, ops_of(res));
            lemma_free_all_concat(ops_of(d1), ops_of(res), src);
            lemma_all_free_concat(ops_of(d1), ops_of(res));
            lemma_produces_layout(d, cur as int, src, o);
        } else {
            assert(free_op(op));
            lemma_apply_single(o1, src, op);
            lemma_apply_free(o1, src, seq![op]);
            lemma_free_all_single(op, src);
            let b = free_bytes(op, src)->Some_0;
            assert(o == o1 + b);
            lemma_place_layout(d1, cur1, seq![op]);
            lemma_free_all_concat(ops_of(d1), seq![op], src);
            assert(all_free(seq![op])) by {
                assert forall|i: int| 0 <= i < seq![op].len() implies free_op(#[trigger] seq![op][i]) by {
                    assert(seq![op][i] == op);
                }
            }
            lemma_all_free_concat(ops_of(d1), seq![op]);
            lemma_produces_layout(d, cur as int, src, o);
        }
    }
}

/// Replacing each dictionary copy by the operations of the earlier patch that produced the
/// bytes it copies produces, from the earlier source, what the copies produced from the
/// earlier patch's output.
pub proof fn lemma_resolve_bytes(ops: Seq<OpModel>, pred: Seq<(u64, OpModel)>, src: Option<Seq<u8>>, mid: Seq<u8>)
    requires
        produces_layout(pred, src, mid),
        all_free(ops),
        resolvable(ops, pred),
    ensures
        all_free(flat_resolve(ops, pred)),
        free_all(flat_resolve(ops, pred), src) == free_all(ops, Some(mid)),
    decreases ops.len(),
{
    if ops.len() == 0 {
        assert(all_free(flat_resolve(ops, pred)));
    } else {
        let dl = ops.drop_last();
        let x = ops.last();
        assert(ops[ops.len() - 1] == x);
        assert(free_op(x));
        assert forall|i: int| 0 <= i < dl.len() implies free_op(#[trigger] dl[i]) by {
            assert(dl[i] == ops[i]);
        }
        assert forall|k: int| 0 <= k < dl.len() && is_copy_d(#[trigger] dl[k])
            implies exact_slice_spec(pred, dl[k]->Copy_0.addr as int, dl[k]->Copy_0.len as int) is Some by {
            assert(dl[k] == ops[k]);
        }
        lemma_resolve_bytes(dl, pred, src, mid);
        let one = resolve_one(x, pred);
        if is_copy_d(x) {
            let c = x->Copy_0;
            lemma_exact_slice_bytes(pred, c.addr as int, c.len as int, src, mid);
        } else {
            lemma_free_all_single(x, src);
            assert(all_free(one)) by {
                assert forall|i: int| 0 <= i < one.len() implies free_op(#[trigger] one[i]) by {
                    assert(one[i] == x);
                }
            }
        }
        lemma_free_all_concat(flat_resolve(dl, pred), one, src);
        lemma_all_free_concat(flat_resolve(dl, pred), one);
    }
}

/// Every Copy the extraction records is counted, with its length, in the copied bytes.
proof fn lemma_extract_copy_bytes(ops: Seq<OpModel>)
    ensures
        extract_spec(ops) matches Some((sp, st, pos)) ==> forall|k: int| 0 <= k < ops.len()
            && (#[trigger] ops[k]) is Copy ==> op_oal(ops[k]) <= st.copy_bytes,
    decreases ops.len(),
{
    if ops.len() > 0 {
        lemma_extract_copy_bytes(ops.drop_last());
        if let Some((sp, st, pos)) = extract_spec(ops) {
            let (sp0, st0, pos0) = extract_spec(ops.drop_last())->Some_0;
            assert(st0.copy_bytes <= st.copy_bytes);
            assert forall|k: int| 0 <= k < ops.len() && (#[trigger] ops[k]) is Copy implies op_oal(ops[k]) <= st.copy_bytes by {
                if k < ops.len() - 1 {
                    assert(ops[k] == ops.drop_last()[k]);
                }
            }
        }
    }
}

// ---------------------------------------------------------------------------
// The laws of merging
// ---------------------------------------------------------------------------
/// Applying free operations from an empty output gives exactly the bytes they produce.
proof fn lemma_apply_free_from_empty(src: Option<Seq<u8>>, ops: Seq<OpModel>, o: Seq<u8>)
    requires
        all_free(ops),
        apply_ops_spec(Seq::empty(), src, ops) == Ok::<Seq<u8>, SmdiffError>(o),
    ensures
        free_all(ops, src) == Some(o),
{
    lemma_apply_free(Seq::empty(), src, ops);
    let b = free_all(ops, src)->Some_0;
    assert(Seq::<u8>::empty() + b =~= b);
}

/// A patch's operations, extracted and with their output copies resolved as a merge does it,
/// are free operations laid out over the patch's output.
proof fn lemma_resolved_ops(ops: Seq<OpModel>, src: Option<Seq<u8>>, o: Seq<u8>)
    requires
        all_roundtrip_models(ops),
        apply_ops_spec(Seq::empty(), src, ops) == Ok::<Seq<u8>, SmdiffError>(o),
        extract_spec(ops) is Some,
        deref_spec(extract_spec(ops)->Some_0.0) is Some,
    ensures
        laid_out(deref_spec(extract_spec(ops)->Some_0.0)->Some_0.0, o.len() as int),
        produces_layout(deref_spec(extract_spec(ops)->Some_0.0)->Some_0.0, src, o),
        summary_ready(deref_spec(extract_spec(ops)->Some_0.0)->Some_0.0),
        apply_ops_spec(Seq::empty(), src, ops_of(deref_spec(extract_spec(ops)->Some_0.0)->Some_0.0))
            == Ok::<Seq<u8>, SmdiffError>(o),
{
    lemma_extract_layout(ops);
    let sp = extract_spec(ops)->Some_0.0;
    assert forall|k: int| 0 <= k < sp.len() implies op_len((#[trigger] sp[k]).1) < 0x10000 && copy_fits(sp[k].1) by {
        assert(ops_of(sp)[k] == sp[k].1);
        assert(crate::reader::op_roundtrips(ops[k]));
    }
    lemma_deref_bytes(sp, src, o);
    let d = deref_spec(sp)->Some_0.0;
    lemma_apply_free(Seq::empty(), src, ops_of(d));
    assert(Seq::<u8>::empty() + o =~= o);
    assert(laid_out(d, o.len() as int));
}

/// The patch holds no Copy from the output of length 0.
pub open spec fn no_empty_output_copy(ops: Seq<OpModel>) -> bool {
    forall|k: int| 0 <= k < ops.len() ==> ((#[trigger] ops[k]) is Copy && ops[k]->Copy_0.src is Output ==> ops[k]->Copy_0.len > 0)
}

/// What a merge starts from: a terminal patch that gives `out` from `src` gives a summary
/// (or, with no copies, its own operations) that gives `out` from `src`.
#[verifier::spinoff_prover]
#[verifier::rlimit(50)]
pub proof fn lemma_terminal_summary(term: Seq<u8>, src: Option<Seq<u8>>, out: Seq<u8>)
    requires
        decode_patch_spec(term, 0, src, Seq::empty()) == Ok::<Seq<u8>, SmdiffError>(out),
    ensures
        terminal_spec_of(term) matches Ok(Ok(t)) ==> summary_ready(t) && apply_ops_spec(Seq::empty(), src, ops_of(t))
            == Ok::<Seq<u8>, SmdiffError>(out),
        terminal_spec_of(term) matches Ok(Err(ops)) ==> apply_ops_spec(Seq::empty(), src, ops) == Ok::<Seq<u8>, SmdiffError>(out),
{
    lemma_decode_is_apply(term, 0, src, Seq::empty());
    lemma_patch_ops_roundtrip(term, 0);
    if let Ok(ops) = patch_ops_spec(term, 0) {
        lemma_extract_layout(ops);
        if let Some((sp, st, pos)) = extract_spec(ops) {
            if st.copy_bytes != 0 {
                if let Some((d, cur)) = deref_spec(sp) {
                    lemma_resolved_ops(ops, src, out);
                }
            }
        }
    }
}

/// The earlier patch as a merge uses it: free operations laid out over its output.
pub proof fn lemma_predecessor_bytes(pred_patch: Seq<u8>, src: Option<Seq<u8>>, mid: Seq<u8>)
    requires
        decode_patch_spec(pred_patch, 0, src, Seq::empty()) == Ok::<Seq<u8>, SmdiffError>(mid),
        patch_ops_spec(pred_patch, 0) matches Ok(ops) ==> no_empty_output_copy(ops),
    ensures
        predecessor_spec(pred_patch) matches Ok(pred) ==> produces_layout(pred, src, mid),
{
    lemma_decode_is_apply(pred_patch, 0, src, Seq::empty());
    lemma_patch_ops_roundtrip(pred_patch, 0);
    if let Ok(ops) = patch_ops_spec(pred_patch, 0) {
        lemma_extract_layout(ops);
        lemma_extract_copy_bytes(ops);
        if let Some((sp, st, pos)) = extract_spec(ops) {
            if st.copy_bytes > 0 {
                if let Some((d, cur)) = deref_spec(sp) {
                    lemma_resolved_ops(ops, src, mid);
                }
            } else {
                assert forall|k: int| 0 <= k < ops.len() implies free_op(#[trigger] ops[k]) by {
                    assert(crate::reader::op_roundtrips(ops[k]));
                    if ops[k] is Copy {
                        assert(op_oal(ops[k]) <= st.copy_bytes);
                    }
                }
                lemma_apply_free_from_empty(src, ops, mid);
                lemma_produces_layout(sp, pos as int, src, mid);
            }
        }
    }
}

/// Merging an earlier patch under a summary: if the summary gives `out` from `mid` and the
/// earlier patch gives `mid` from `src`, the merged summary gives `out` from `src`, and is
/// again one a merge can work with.
pub proof fn lemma_merge_summary(t: Seq<(u64, OpModel)>, pred_patch: Seq<u8>, src: Option<Seq<u8>>, mid: Seq<u8>, out: Seq<u8>)
    requires
        summary_ready(t),
        apply_ops_spec(Seq::empty(), Some(mid), ops_of(t)) == Ok::<Seq<u8>, SmdiffError>(out),
        decode_patch_spec(pred_patch, 0, src, Seq::empty()) == Ok::<Seq<u8>, SmdiffError>(mid),
        patch_ops_spec(pred_patch, 0) matches Ok(ops) ==> no_empty_output_copy(ops),
    ensures
        merge_spec(t, pred_patch) matches Ok(m) ==> summary_ready(m) && apply_ops_spec(Seq::empty(), src, ops_of(m))
            == Ok::<Seq<u8>, SmdiffError>(out),
{
    lemma_predecessor_bytes(pred_patch, src, mid);
    if let Ok(pred) = predecessor_spec(pred_patch) {
        if resolvable(ops_of(t), pred) {
            let flat = flat_resolve(ops_of(t), pred);
            lemma_apply_free_from_empty(Some(mid), ops_of(t), out);
            lemma_resolve_bytes(ops_of(t), pred, src, mid);
            assert(laid_out(Seq::<(u64, OpModel)>::empty(), 0));
            lemma_place_layout(Seq::empty(), 0, flat);
            if let Some((m, c)) = place(Seq::empty(), 0, flat) {
                assert(ops_of(Seq::<(u64, OpModel)>::empty()) + flat =~= flat);
                lemma_apply_free(Seq::empty(), src, ops_of(m));
                assert(Seq::<u8>::empty() + out =~= out);
                assert(laid_out(m, c as int));
            }
        }
    }
}

/// A merged patch, written plain or with SMDIFF secondary compression, applied to the first
/// source gives the last target: where the terminal patch gives `out` from `mid`, the
/// earlier patch gives `mid` from `src`, and the merge succeeds, the written summary gives
/// `out` from `src`.
pub proof fn lemma_merged_patch_decodes(
    term: Seq<u8>,
    pred_patch: Seq<u8>,
    src: Option<Seq<u8>>,
    mid: Seq<u8>,
    out: Seq<u8>,
    bytes: Seq<u8>,
    secs: Seq<(SectionHeader, Seq<OpModel>, Seq<u8>)>,
    comp: Option<SecondaryCompression>,
    format: Format,
    seg_size: nat,
)
    requires
        decode_patch_spec(term, 0, Some(mid), Seq::empty()) == Ok::<Seq<u8>, SmdiffError>(out),
        decode_patch_spec(pred_patch, 0, src, Seq::empty()) == Ok::<Seq<u8>, SmdiffError>(mid),
        patch_ops_spec(pred_patch, 0) matches Ok(ops) ==> no_empty_output_copy(ops),
        terminal_spec_of(term) is Ok,
        terminal_spec_of(term)->Ok_0 is Ok,
        merge_spec(terminal_spec_of(term)->Ok_0->Ok_0, pred_patch) is Ok,
        encoded_as(bytes, secs, comp, format, seg_size),
        written_ops(secs) == ops_of(merge_spec(terminal_spec_of(term)->Ok_0->Ok_0, pred_patch)->Ok_0),
        comp is None || comp matches Some(SecondaryCompression::Smdiff(_)),
    ensures
        decode_patch_spec(bytes, 0, src, Seq::empty()) == Ok::<Seq<u8>, SmdiffError>(out),
{
    let t = terminal_spec_of(term)->Ok_0->Ok_0;
    lemma_terminal_summary(term, Some(mid), out);
    lemma_merge_summary(t, pred_patch, src, mid, out);
    lemma_encoded_decodes(bytes, secs, comp, format, seg_size, src);
}

// ---------------------------------------------------------------------------
// What the transcoder's operations produce
// ---------------------------------------------------------------------------
/// Runs in chunks append the run's bytes.
pub proof fn lemma_run_chunks_bytes(byte: u8, len: int, o: Seq<u8>, src: Option<Seq<u8>>)
    requires
        len >= 0,
    ensures
        apply_ops_spec(o, src, run_chunks(byte, len)) == Ok::<Seq<u8>, SmdiffError>(o + repeat(byte, len)),
    decreases len,
{
    if len == 0 {
        assert(o + repeat(byte, 0) =~= o);
    } else {
        let c = if len < MAX_RUN_LEN { len } else { MAX_RUN_LEN as int };
        let op = OpModel::Run(Run { byte, len: c as u8 });
        lemma_apply_concat(o, src, seq![op], run_chunks(byte, len - c));
        lemma_apply_one(o, src, op);
        let o1 = o + Seq::new(c as u8 as nat, |i: int| byte);
        lemma_run_chunks_bytes(byte, len - c, o1, src);
        assert(o1 + repeat(byte, len - c) =~= o + repeat(byte, len));
    }
}

/// Copies of a run that already stands `max_copy` bytes long at `start`, at the end of the
/// output, extend it by `remaining` bytes.
proof fn lemma_run_copies_bytes(byte: u8, start: u64, remaining: int, max_copy: int, base: Seq<u8>, src: Option<Seq<u8>>)
    requires
        base.len() == start,
        remaining >= 0,
        max_copy > 0,
    ensures
        apply_ops_spec(base + repeat(byte, max_copy), src, run_copies(start, remaining, max_copy))
            == Ok::<Seq<u8>, SmdiffError>(base + repeat(byte, max_copy + remaining)),
    decreases remaining,
{
    let o = base + repeat(byte, max_copy);
    if remaining == 0 {
        assert(o =~= base + repeat(byte, max_copy + remaining));
    } else {
        let c0 = if max_copy < remaining { max_copy } else { remaining };
        let c = if c0 < MAX_INST_SIZE { c0 } else { MAX_INST_SIZE as int };
        let op = OpModel::Copy(crate::common::Copy { src: CopySrc::Output, addr: start, len: c as u16 });
        lemma_apply_concat(o, src, seq![op], run_copies(start, remaining - c, max_copy + c));
        lemma_apply_one(o, src, op);
        assert(o.subrange(start as int, start + c) =~= repeat(byte, c));
        assert(o + repeat(byte, c) =~= base + repeat(byte, max_copy + c));
        lemma_run_copies_bytes(byte, start, remaining - c, max_copy + c, base, src);
    }
}

/// The operations for a run, applied where the run starts, append its bytes.
pub proof fn lemma_run_ops_bytes(byte: u8, len: int, start: u64, o: Seq<u8>, src: Option<Seq<u8>>)
    requires
        len >= 0,
        o.len() == start,
    ensures
        apply_ops_spec(o, src, run_ops_spec(byte, len, start)) == Ok::<Seq<u8>, SmdiffError>(o + repeat(byte, len)),
{
    if len < RUN_LIMIT {
        lemma_run_chunks_bytes(byte, len, o, src);
    } else {
        let r62 = OpModel::Run(Run { byte, len: MAX_RUN_LEN });
        let three = seq![r62, r62, r62];
        lemma_apply_concat(o, src, three, run_copies(start, len - COPY_LIMIT, COPY_LIMIT as int));
        reveal_with_fuel(apply_ops_spec, 4);
        assert(three.drop_last().drop_last().drop_last() =~= Seq::<OpModel>::empty());
        assert(three.drop_last().drop_last() =~= seq![r62]);
        assert(three.drop_last() =~= seq![r62, r62]);
        let b62 = Seq::new(62, |i: int| byte);
        assert(o + b62 + b62 + b62 =~= o + repeat(byte, COPY_LIMIT as int));
        lemma_run_copies_bytes(byte, start, len - COPY_LIMIT, COPY_LIMIT as int, o, src);
        assert(o + repeat(byte, COPY_LIMIT + (len - COPY_LIMIT)) =~= o + repeat(byte, len));
    }
}

/// Adds in chunks append their bytes.
pub proof fn lemma_add_chunks_bytes(b: Seq<u8>, o: Seq<u8>, src: Option<Seq<u8>>)
    ensures
        apply_ops_spec(o, src, add_chunks(b)) == Ok::<Seq<u8>, SmdiffError>(o + b),
    decreases b.len(),
{
    if b.len() == 0 {
        assert(o + b =~= o);
    } else {
        let c = if b.len() < MAX_INST_SIZE { b.len() as int } else { MAX_INST_SIZE as int };
        let op = OpModel::Add(b.subrange(0, c));
        lemma_apply_concat(o, src, seq![op], add_chunks(b.subrange(c, b.len() as int)));
        lemma_apply_one(o, src, op);
        lemma_add_chunks_bytes(b.subrange(c, b.len() as int), o + b.subrange(0, c), src);
        assert(o + b.subrange(0, c) + b.subrange(c, b.len() as int) =~= o + b);
    }
}

/// The operations for Add bytes append them.
pub proof fn lemma_add_ops_bytes(b: Seq<u8>, o: Seq<u8>, src: Option<Seq<u8>>)
    ensures
        apply_ops_spec(o, src, add_ops_spec(b)) == Ok::<Seq<u8>, SmdiffError>(o + b),
{
    if b.len() == 1 {
        let op = OpModel::Run(Run { len: 1, byte: b[0] });
        lemma_apply_one(o, src, op);
        assert(o + Seq::new(1, |i: int| b[0]) =~= o + b);
    } else {
        lemma_add_chunks_bytes(b, o, src);
    }
}

/// The output bytes of one transcoder operation.
pub open spec fn inner_len_one(m: InnerModel) -> nat {
    match m {
        InnerModel::Add(b) => b.len(),
        InnerModel::Copy(c) => c.len as nat,
        InnerModel::Run { len, .. } => len,
    }
}

/// The output bytes of transcoder operations.
pub open spec fn inner_len(ims: Seq<InnerModel>) -> nat
    decreases ims.len(),
{
    if ims.len() == 0 {
        0
    } else {
        inner_len(ims.drop_last()) + inner_len_one(ims.last())
    }
}

/// `out` after one transcoder operation; a Run appends its bytes, wherever it says it starts.
pub open spec fn inner_apply_one(out: Seq<u8>, src: Option<Seq<u8>>, m: InnerModel) -> Result<Seq<u8>, SmdiffError> {
    match m {
        InnerModel::Add(b) => Ok(out + b),
        InnerModel::Copy(c) => apply_op_spec(out, src, OpModel::Copy(c)),
        InnerModel::Run { byte, len, .. } => Ok(out + repeat(byte, len as int)),
    }
}

/// `out` after the transcoder operations, in order.
pub open spec fn inner_apply(out: Seq<u8>, src: Option<Seq<u8>>, ims: Seq<InnerModel>) -> Result<Seq<u8>, SmdiffError>
    decreases ims.len(),
{
    if ims.len() == 0 {
        Ok(out)
    } else {
        match inner_apply(out, src, ims.drop_last()) {
            Err(e) => Err(e),
            Ok(o) => inner_apply_one(o, src, ims.last()),
        }
    }
}

/// Every Run from index `i` on, and every nonempty Run before it, says where it starts:
/// `base` plus the bytes before it, a position that fits a u64.
pub open spec fn starts_from(ims: Seq<InnerModel>, base: int, i: int) -> bool {
    forall|k: int| 0 <= k < ims.len() && (#[trigger] ims[k]) is Run && (k >= i || ims[k]->len > 0)
        ==> ims[k]->start == base + inner_len(ims.subrange(0, k)) && ims[k]->start <= u64::MAX
}

proof fn lemma_inner_len_concat(a: Seq<InnerModel>, b: Seq<InnerModel>)
    ensures
        inner_len(a + b) == inner_len(a) + inner_len(b),
    decreases b.len(),
{
    if b.len() == 0 {
        assert(a + b =~= a);
    } else {
        lemma_inner_len_concat(a, b.drop_last());
        assert((a + b).drop_last() =~= a + b.drop_last());
        assert((a + b).last() == b.last());
    }
}

proof fn lemma_inner_apply_concat(out: Seq<u8>, src: Option<Seq<u8>>, a: Seq<InnerModel>, b: Seq<InnerModel>)
    ensures
        inner_apply(out, src, a + b) == match inner_apply(out, src, a) {
            Err(e) => Err(e),
            Ok(o) => inner_apply(o, src, b),
        },
    decreases b.len(),
{
    if b.len() == 0 {
        assert(a + b =~= a);
    } else {
        lemma_inner_apply_concat(out, src, a, b.drop_last());
        assert((a + b).drop_last() =~= a + b.drop_last());
        assert((a + b).last() == b.last());
    }
}

proof fn lemma_inner_apply_len(out: Seq<u8>, src: Option<Seq<u8>>, ims: Seq<InnerModel>)
    ensures
        inner_apply(out, src, ims) matches Ok(o) ==> o.len() == out.len() + inner_len(ims),
    decreases ims.len(),
{
    if ims.len() > 0 {
        lemma_inner_apply_len(out, src, ims.drop_last());
    }
}

proof fn lemma_inner_apply_two(out: Seq<u8>, src: Option<Seq<u8>>, x: InnerModel, y: InnerModel)
    ensures
        inner_apply(out, src, seq![x, y]) == match inner_apply_one(out, src, x) {
            Err(e) => Err(e),
            Ok(o) => inner_apply_one(o, src, y),
        },
{
    let s = seq![x, y];
    assert(s.drop_last() =~= seq![x]);
    assert(s.last() == y);
    lemma_inner_one(out, src, x);
}

proof fn lemma_inner_one(out: Seq<u8>, src: Option<Seq<u8>>, x: InnerModel)
    ensures
        inner_apply(out, src, seq![x]) == inner_apply_one(out, src, x),
        inner_len(seq![x]) == inner_len_one(x),
{
    assert(seq![x].drop_last() =~= Seq::<InnerModel>::empty());
    assert(seq![x].last() == x);
    assert(inner_apply(out, src, Seq::<InnerModel>::empty()) == Ok::<Seq<u8>, SmdiffError>(out));
    assert(inner_len(Seq::<InnerModel>::empty()) == 0);
}

/// `out` after two transcoder operations.
pub open spec fn pair_apply(out: Seq<u8>, src: Option<Seq<u8>>, x: InnerModel, y: InnerModel) -> Result<Seq<u8>, SmdiffError> {
    inner_apply(out, src, seq![x, y])
}

/// Replacing two neighbouring operations by two that produce the same bytes, in the same
/// amount, keeps what the operations produce and how many bytes come before each other one.
proof fn lemma_replace_pair(ims: Seq<InnerModel>, i: int, x: InnerModel, y: InnerModel, out: Seq<u8>, src: Option<Seq<u8>>)
    requires
        0 <= i,
        i + 1 < ims.len(),
        forall|o: Seq<u8>| #[trigger] pair_apply(o, src, x, y) == pair_apply(o, src, ims[i], ims[i + 1]),
        inner_len_one(x) + inner_len_one(y) == inner_len_one(ims[i]) + inner_len_one(ims[i + 1]),
    ensures
        inner_apply(out, src, ims.update(i, x).update(i + 1, y)) == inner_apply(out, src, ims),
        forall|k: int| 0 <= k <= i ==> #[trigger] ims.update(i, x).update(i + 1, y).subrange(0, k) == ims.subrange(0, k),
        forall|k: int| i + 2 <= k <= ims.len() ==> inner_len(#[trigger] ims.update(i, x).update(i + 1, y).subrange(0, k))
            == inner_len(ims.subrange(0, k)),
{
    let q = ims.update(i, x).update(i + 1, y);
    let pre = ims.subrange(0, i);
    let suf = ims.subrange(i + 2, ims.len() as int);
    let p_old = seq![ims[i], ims[i + 1]];
    let p_new = seq![x, y];
    assert(ims =~= pre + p_old + suf);
    assert(q =~= pre + p_new + suf);
    lemma_inner_apply_concat(out, src, pre + p_old, suf);
    lemma_inner_apply_concat(out, src, pre + p_new, suf);
    lemma_inner_apply_concat(out, src, pre, p_old);
    lemma_inner_apply_concat(out, src, pre, p_new);
    if let Ok(o) = inner_apply(out, src, pre) {
        assert(pair_apply(o, src, x, y) == pair_apply(o, src, ims[i], ims[i + 1]));
    }
    assert forall|k: int| 0 <= k <= i implies #[trigger] q.subrange(0, k) == ims.subrange(0, k) by {
        assert(q.subrange(0, k) =~= ims.subrange(0, k));
    }
    assert forall|k: int| i + 2 <= k <= ims.len() implies inner_len(#[trigger] q.subrange(0, k)) == inner_len(ims.subrange(0, k)) by {
        let mid = ims.subrange(i + 2, k);
        assert(q.subrange(0, k) =~= pre + p_new + mid);
        assert(ims.subrange(0, k) =~= pre + p_old + mid);
        lemma_inner_len_concat(pre + p_new, mid);
        lemma_inner_len_concat(pre + p_old, mid);
        lemma_inner_len_concat(pre, p_new);
        lemma_inner_len_concat(pre, p_old);
        assert(p_new.drop_last() =~= seq![x]);
        assert(p_old.drop_last() =~= seq![ims[i]]);
        assert(p_new.last() == y);
        assert(p_old.last() == ims[i + 1]);
        lemma_inner_one(out, src, x);
        lemma_inner_one(out, src, ims[i]);
        assert(inner_len(p_new) == inner_len_one(x) + inner_len_one(y));
        assert(inner_len(p_old) == inner_len_one(ims[i]) + inner_len_one(ims[i + 1]));
    }
}

/// Knowing where Runs start from `i` on gives it from any later index on.
proof fn lemma_starts_later(ims: Seq<InnerModel>, base: int, i: int, j: int)
    requires
        starts_from(ims, base, i),
        i <= j || ims.len() <= j,
    ensures
        starts_from(ims, base, j),
{
}

/// Joining adjacent Adds keeps what the operations produce and where each Run starts.
proof fn lemma_join_adds_keeps(ims: Seq<InnerModel>, i: int, base: int, out: Seq<u8>, src: Option<Seq<u8>>)
    requires
        starts_from(ims, base, 0),
    ensures
        starts_from(join_adds_spec(ims, i), base, 0),
        inner_apply(out, src, join_adds_spec(ims, i)) == inner_apply(out, src, ims),
    decreases ims.len() - i,
{
    if i < 1 || i >= ims.len() {
    } else {
        match (ims[i - 1], ims[i]) {
            (InnerModel::Add(a), InnerModel::Add(b)) if a.len() < MAX_INST_SIZE => {
                let x = InnerModel::Add(Seq::empty());
                let y = InnerModel::Add(a + b);
                let next = ims.update(i - 1, x).update(i, y);
                assert forall|o: Seq<u8>| #[trigger] pair_apply(o, src, x, y) == pair_apply(o, src, ims[i - 1], ims[i]) by {
                    lemma_inner_apply_two(o, src, x, y);
                    lemma_inner_apply_two(o, src, ims[i - 1], ims[i]);
                    assert(o + Seq::<u8>::empty() + (a + b) =~= o + a + b);
                }
                lemma_replace_pair(ims, i - 1, x, y, out, src);
                assert forall|k: int| 0 <= k < next.len() && (#[trigger] next[k]) is Run && (k >= 0 || next[k]->len > 0)
                    implies next[k]->start == base + inner_len(next.subrange(0, k)) && next[k]->start <= u64::MAX by {
                    assert(k != i - 1 && k != i);
                    assert(next[k] == ims[k]);
                    if k < i - 1 {
                        assert(next.subrange(0, k) == ims.subrange(0, k));
                    } else {
                        assert(inner_len(next.subrange(0, k)) == inner_len(ims.subrange(0, k)));
                    }
                }
                lemma_join_adds_keeps(next, i + 1, base, out, src);
            },
            _ => {
                lemma_join_adds_keeps(ims, i + 1, base, out, src);
            },
        }
    }
}

/// Joining adjacent Runs keeps what the operations produce and where each nonempty Run starts.
proof fn lemma_join_runs_keeps(ims: Seq<InnerModel>, i: int, base: int, out: Seq<u8>, src: Option<Seq<u8>>)
    requires
        1 <= i,
        starts_from(ims, base, i - 1),
    ensures
        starts_from(join_runs_spec(ims, i), base, join_runs_spec(ims, i).len() as int),
        inner_apply(out, src, join_runs_spec(ims, i)) == inner_apply(out, src, ims),
    decreases ims.len() - i,
{
    if i >= ims.len() {
        lemma_starts_later(ims, base, i - 1, ims.len() as int);
    } else {
        match (ims[i - 1], ims[i]) {
            (InnerModel::Run { byte: b1, len: l1, start: s1 }, InnerModel::Run { byte: b2, len: l2, start: s2 }) => {
                if b1 == b2 && l1 + l2 <= usize::MAX / 2 {
                    let x = InnerModel::Run { byte: b1, len: 0, start: s1 };
                    let y = InnerModel::Run { byte: b2, len: l1 + l2, start: s1 };
                    let next = ims.update(i - 1, x).update(i, y);
                    assert forall|o: Seq<u8>| #[trigger] pair_apply(o, src, x, y) == pair_apply(o, src, ims[i - 1], ims[i]) by {
                        lemma_inner_apply_two(o, src, x, y);
                        lemma_inner_apply_two(o, src, ims[i - 1], ims[i]);
                        assert(o + repeat(b1, 0int) + repeat(b2, (l1 + l2) as int) =~= o + repeat(b1, l1 as int) + repeat(b2, l2 as int));
                    }
                    lemma_replace_pair(ims, i - 1, x, y, out, src);
                    assert(ims[i - 1] is Run);
                    assert(ims[i - 1]->start == base + inner_len(ims.subrange(0, i - 1)));
                    assert forall|k: int| 0 <= k < next.len() && (#[trigger] next[k]) is Run && (k >= i || next[k]->len > 0)
                        implies next[k]->start == base + inner_len(next.subrange(0, k)) && next[k]->start <= u64::MAX by {
                        if k == i - 1 {
                            assert(next[k]->len == 0);
                        } else if k == i {
                            let pre = ims.subrange(0, i - 1);
                            assert(next.subrange(0, i) =~= pre + seq![x]);
                            lemma_inner_len_concat(pre, seq![x]);
                            assert(seq![x].drop_last() =~= Seq::<InnerModel>::empty());
                            assert(seq![x].last() == x);
                            assert(inner_len(Seq::<InnerModel>::empty()) == 0);
                            assert(inner_len(seq![x]) == 0);
                        } else {
                            assert(next[k] == ims[k]);
                            if k < i - 1 {
                                assert(next.subrange(0, k) == ims.subrange(0, k));
                            } else {
                                assert(inner_len(next.subrange(0, k)) == inner_len(ims.subrange(0, k)));
                            }
                        }
                    }
                    lemma_join_runs_keeps(next, i + 1, base, out, src);
                } else {
                    lemma_starts_later(ims, base, i - 1, i);
                    lemma_join_runs_keeps(ims, i + 1, base, out, src);
                }
            },
            _ => {
                lemma_starts_later(ims, base, i - 1, i);
                lemma_join_runs_keeps(ims, i + 1, base, out, src);
            },
        }
    }
}

/// Converting operations whose nonempty Runs start where they say produces what they produce.
proof fn lemma_convert_apply(ims: Seq<InnerModel>, out: Seq<u8>, src: Option<Seq<u8>>)
    requires
        starts_from(ims, out.len() as int, ims.len() as int),
    ensures
        apply_ops_spec(out, src, convert_spec(ims)) == inner_apply(out, src, ims),
    decreases ims.len(),
{
    if ims.len() > 0 {
        let n = ims.len() as int;
        let dl = ims.drop_last();
        let x = ims.last();
        assert(ims[n - 1] == x);
        assert forall|k: int| 0 <= k < dl.len() && (#[trigger] dl[k]) is Run && (k >= dl.len() || dl[k]->len > 0)
            implies dl[k]->start == out.len() + inner_len(dl.subrange(0, k)) && dl[k]->start <= u64::MAX by {
            assert(dl[k] == ims[k]);
            assert(dl.subrange(0, k) =~= ims.subrange(0, k));
        }
        lemma_convert_apply(dl, out, src);
        let piece = match x {
            InnerModel::Add(b) => add_ops_spec(b),
            InnerModel::Copy(c) => seq![OpModel::Copy(c)],
            InnerModel::Run { byte, len, start } => if len > 0 {
                run_ops_spec(byte, len as int, start as u64)
            } else {
                Seq::empty()
            },
        };
        assert(convert_spec(ims) == convert_spec(dl) + piece);
        lemma_apply_concat(out, src, convert_spec(dl), piece);
        lemma_inner_apply_len(out, src, dl);
        if let Ok(o1) = inner_apply(out, src, dl) {
            match x {
                InnerModel::Add(b) => {
                    lemma_add_ops_bytes(b, o1, src);
                },
                InnerModel::Copy(c) => {
                    lemma_apply_one(o1, src, OpModel::Copy(c));
                },
                InnerModel::Run { byte, len, start } => {
                    if len > 0 {
                        assert(ims.subrange(0, n - 1) =~= dl);
                        lemma_run_ops_bytes(byte, len as int, start as u64, o1, src);
                    } else {
                        assert(o1 + repeat(byte, 0) =~= o1);
                    }
                },
            }
        }
    }
}

/// The transcoder's operations for sparse operations produce what the operations produce.
proof fn lemma_from_sparse_apply(sp: Seq<(u64, OpModel)>, out: Seq<u8>, src: Option<Seq<u8>>)
    ensures
        inner_apply(out, src, from_sparse(sp)) == apply_ops_spec(out, src, ops_of(sp)),
    decreases sp.len(),
{
    if sp.len() > 0 {
        let dl = sp.drop_last();
        assert(from_sparse(sp).drop_last() =~= from_sparse(dl));
        assert(ops_of(sp).drop_last() =~= ops_of(dl));
        assert(from_sparse(sp).last() == from_sparse(sp)[sp.len() - 1]);
        assert(ops_of(sp).last() == sp.last().1);
        lemma_from_sparse_apply(dl, out, src);
        if let Ok(o) = apply_ops_spec(out, src, ops_of(dl)) {
            if let OpModel::Run(r) = sp.last().1 {
                assert(repeat(r.byte, r.len as int) =~= Seq::new(r.len as nat, |i: int| r.byte));
            }
        }
    }
}

/// Sparse operations laid out from 0 start where the bytes of the operations before them end.
proof fn lemma_from_sparse_positions(sp: Seq<(u64, OpModel)>, end: int)
    requires
        laid_out(sp, end),
        recorded(sp),
    ensures
        end == inner_len(from_sparse(sp)),
        forall|k: int| 0 <= k < sp.len() ==> (#[trigger] sp[k]).0 == inner_len(from_sparse(sp).subrange(0, k)),
    decreases sp.len(),
{
    if sp.len() > 0 {
        let dl = sp.drop_last();
        let x = sp.last();
        assert(sp[sp.len() - 1] == x);
        assert(laid_out(dl, x.0 as int)) by {
            assert forall|k: int| 0 <= k < dl.len() - 1 implies #[trigger] sop_end(dl[k]) == dl[k + 1].0 by {
                assert(dl[k] == sp[k]);
                assert(dl[k + 1] == sp[k + 1]);
                assert(sop_end(sp[k]) == sp[k + 1].0);
            }
            if dl.len() > 0 {
                assert(sop_end(sp[dl.len() - 1]) == sp[dl.len() as int].0);
                assert(dl.last() == sp[dl.len() - 1]);
                assert(dl[0] == sp[0]);
            }
        }
        assert forall|k: int| 0 <= k < dl.len() implies op_len((#[trigger] dl[k]).1) < 0x10000 && copy_fits(dl[k].1) by {
            assert(dl[k] == sp[k]);
        }
        lemma_from_sparse_positions(dl, x.0 as int);
        let f = from_sparse(sp);
        assert(f.drop_last() =~= from_sparse(dl));
        assert(f.last() == f[sp.len() - 1]);
        assert(op_len(x.1) < 0x10000);
        assert(inner_len_one(f.last()) == op_len(x.1));
        assert forall|k: int| 0 <= k < sp.len() implies (#[trigger] sp[k]).0 == inner_len(from_sparse(sp).subrange(0, k)) by {
            if k < sp.len() - 1 {
                assert(sp[k] == dl[k]);
                assert(f.subrange(0, k) =~= from_sparse(dl).subrange(0, k));
            } else {
                assert(f.subrange(0, k) =~= from_sparse(dl));
            }
        }
    }
}

/// Operations of a patch, laid out from 0, that give an output that fits in memory, give it
/// again once transcoded.
pub proof fn lemma_transcoded_apply(sp: Seq<(u64, OpModel)>, end: int, src: Option<Seq<u8>>, out: Seq<u8>)
    requires
        laid_out(sp, end),
        recorded(sp),
        apply_ops_spec(Seq::empty(), src, ops_of(sp)) == Ok::<Seq<u8>, SmdiffError>(out),
        out.len() <= usize::MAX,
    ensures
        apply_ops_spec(Seq::empty(), src, transcoded_ops(sp)) == Ok::<Seq<u8>, SmdiffError>(out),
{
    let f = from_sparse(sp);
    lemma_from_sparse_apply(sp, Seq::empty(), src);
    lemma_inner_apply_len(Seq::empty(), src, f);
    lemma_from_sparse_positions(sp, end);
    assert forall|k: int| 0 <= k < f.len() && (#[trigger] f[k]) is Run && (k >= 0 || f[k]->len > 0)
        implies f[k]->start == 0 + inner_len(f.subrange(0, k)) && f[k]->start <= u64::MAX by {
        let x = sp[k];
        assert(x.0 == inner_len(f.subrange(0, k)));
        assert(f =~= f.subrange(0, k) + f.subrange(k, f.len() as int));
        lemma_inner_len_concat(f.subrange(0, k), f.subrange(k, f.len() as int));
        assert(x.0 <= out.len());
    }
    let j1 = join_adds_spec(f, 1);
    lemma_join_adds_keeps(f, 1, 0, Seq::empty(), src);
    lemma_join_runs_keeps(j1, 1, 0, Seq::empty(), src);
    let j2 = join_runs_spec(j1, 1);
    assert(Seq::<u8>::empty().len() == 0);
    lemma_convert_apply(j2, Seq::empty(), src);
}

/// Transcoding keeps what a patch does: where the input patch gives `out` from `src` (an
/// output that fits in memory), the transcoded patch, written plain or with SMDIFF secondary
/// compression, gives `out` from `src` as well.
pub proof fn lemma_transcode_decodes(
    input: Seq<u8>,
    src: Option<Seq<u8>>,
    out: Seq<u8>,
    bytes: Seq<u8>,
    secs: Seq<(SectionHeader, Seq<OpModel>, Seq<u8>)>,
    comp: Option<SecondaryCompression>,
    format: Format,
    seg_size: nat,
)
    requires
        decode_patch_spec(input, 0, src, Seq::empty()) == Ok::<Seq<u8>, SmdiffError>(out),
        out.len() <= usize::MAX,
        patch_ops_spec(input, 0) is Ok,
        extract_spec(patch_ops_spec(input, 0)->Ok_0) is Some,
        encoded_as(bytes, secs, comp, format, seg_size),
        written_ops(secs) == transcoded_ops(extract_spec(patch_ops_spec(input, 0)->Ok_0)->Some_0.0),
        comp is None || comp matches Some(SecondaryCompression::Smdiff(_)),
    ensures
        decode_patch_spec(bytes, 0, src, Seq::empty()) == Ok::<Seq<u8>, SmdiffError>(out),
{
    let ops = patch_ops_spec(input, 0)->Ok_0;
    lemma_decode_is_apply(input, 0, src, Seq::empty());
    lemma_patch_ops_roundtrip(input, 0);
    lemma_extract_layout(ops);
    let (sp, st, pos) = extract_spec(ops)->Some_0;
    assert forall|k: int| 0 <= k < sp.len() implies op_len((#[trigger] sp[k]).1) < 0x10000 && copy_fits(sp[k].1) by {
        assert(ops_of(sp)[k] == sp[k].1);
        assert(crate::reader::op_roundtrips(ops[k]));
    }
    lemma_transcoded_apply(sp, pos as int, src, out);
    lemma_encoded_decodes(bytes, secs, comp, format, seg_size, src);
}

/// What `SummaryPatch::write` writes without secondary compression reads back through the
/// section iterator as its sections in order, each in the format asked for (Interleaved by
/// default), terminal only the last, of at most the clamped window size, and their
/// operations, concatenated, are the summary's operations; after the last one the iterator
/// is done.
pub proof fn lemma_summary_reads_back(
    summary: SummaryPatch,
    bytes: Seq<u8>,
    secs: Seq<(SectionHeader, Seq<OpModel>, Seq<u8>)>,
    max_win_size: Option<usize>,
    format: Option<Format>,
)
    requires
        encoded_as(bytes, secs, None, format_or_interleaved(format), clamp_section_size(win_or_max(max_win_size))),
        written_ops(secs) == summary.ops_spec(),
    ensures
        forall|i: nat| i < secs.len() ==> {
            &&& !(#[trigger] iter_from(bytes, 0, i)).1
            &&& crate::reader::read_section_spec(bytes, iter_from(bytes, 0, i).0) matches Ok((h, ops, _))
            &&& ops == secs[i as int].1
            &&& h.format == format_or_interleaved(format)
            &&& h.more_sections == (i < secs.len() - 1)
            &&& h.output_size <= clamp_section_size(win_or_max(max_win_size))
        },
        iter_from(bytes, 0, secs.len()).1,
        written_ops(secs) == summary.ops_spec(),
{
    lemma_encoded_reads_back(bytes, secs, format_or_interleaved(format), clamp_section_size(win_or_max(max_win_size)));
}

// ---------------------------------------------------------------------------
// When a merge succeeds
// ---------------------------------------------------------------------------
/// A patch that decodes has its operations read.
proof fn lemma_decode_reads_ops(s: Seq<u8>, p: int, src: Option<Seq<u8>>, out: Seq<u8>)
    requires
        decode_patch_spec(s, p, src, out) is Ok,
    ensures
        patch_ops_spec(s, p) is Ok,
    decreases s.len() - p,
{
    lemma_decoded_section_bounds(s, p);
    if let Ok((h, ops, q)) = decoded_section_spec(s, p) {
        if h.more_sections {
            if let Ok(o) = apply_ops_spec(out, src, ops) {
                lemma_decode_reads_ops(s, q, src, o);
            }
        }
    }
}

/// In operations laid out from 0 up to `end`, some operation produces each byte before `end`.
proof fn lemma_some_covers(s: Seq<(u64, OpModel)>, end: int, a: int)
    requires
        laid_out(s, end),
        0 <= a < end,
    ensures
        exists|i: int| 0 <= i < s.len() && covers(s[i], a),
    decreases s.len(),
{
    let l = s.len() - 1;
    if a >= s[l].0 {
        assert(covers(s[l], a));
    } else {
        let d = s.drop_last();
        assert forall|k: int| 0 <= k < d.len() - 1 implies #[trigger] sop_end(d[k]) == d[k + 1].0 by {
            assert(sop_end(s[k]) == s[k + 1].0);
        }
        if d.len() > 0 {
            assert(sop_end(s[l - 1]) == s[l].0);
        } else {
            assert(s[0].0 == 0);
        }
        assert(laid_out(d, s[l].0 as int));
        lemma_some_covers(d, s[l].0 as int, a);
        let i = choose|i: int| 0 <= i < d.len() && covers(d[i], a);
        assert(covers(s[i], a));
    }
}

/// From any operation of a layout up to `end`, the clipped operations reach any point up to
/// `end`.
proof fn lemma_slice_from_some(s: Seq<(u64, OpModel)>, end: int, k: int, start: int, end_pos: int)
    requires
        laid_out(s, end),
        0 <= k < s.len(),
        end_pos <= end,
    ensures
        slice_from(s, k, start, end_pos) is Some,
    decreases s.len() - k,
{
    reveal(slice_from);
    if sop_end(s[k]) < end_pos {
        if k == s.len() - 1 {
            assert(false);
        }
        lemma_slice_from_some(s, end, k + 1, start, end_pos);
    }
}

/// Any range of bytes inside a layout from 0 up to `end` is sliced out of it.
pub proof fn lemma_exact_slice_some(s: Seq<(u64, OpModel)>, end: int, a: int, l: int)
    requires
        laid_out(s, end),
        0 <= a < end,
        a + l <= end,
    ensures
        exact_slice_spec(s, a, l) is Some,
{
    lemma_some_covers(s, end, a);
    let i = choose|i: int| 0 <= i < s.len() && covers(s[i], a);
    lemma_slice_from_some(s, end, i, a, a + l);
}

/// Free operations that produce `b` can be placed after `cur` when `b` ends inside the u64
/// range; they then end at `cur + b.len()`.
proof fn lemma_place_some(out: Seq<(u64, OpModel)>, cur: u64, ops: Seq<OpModel>, src: Option<Seq<u8>>, b: Seq<u8>)
    requires
        all_free(ops),
        free_all(ops, src) == Some(b),
        cur + b.len() <= u64::MAX,
    ensures
        place(out, cur, ops) matches Some((o, c)) && c == cur + b.len(),
    decreases ops.len(),
{
    if ops.len() > 0 {
        let d = ops.drop_last();
        let x = ops.last();
        assert forall|i: int| 0 <= i < d.len() implies free_op(#[trigger] d[i]) by {
            assert(d[i] == ops[i]);
        }
        assert(free_op(ops[ops.len() - 1]));
        let a = free_all(d, src)->Some_0;
        let bb = free_bytes(x, src)->Some_0;
        lemma_free_bytes_len(x, src);
        lemma_place_some(out, cur, d, src, a);
        assert(op_oal(x) == op_len(x));
    }
}

/// Free operations that produce bytes each produce bytes.
proof fn lemma_free_all_each(ops: Seq<OpModel>, src: Option<Seq<u8>>)
    requires
        free_all(ops, src) is Some,
    ensures
        forall|k: int| 0 <= k < ops.len() ==> free_bytes(#[trigger] ops[k], src) is Some,
    decreases ops.len(),
{
    if ops.len() > 0 {
        lemma_free_all_each(ops.drop_last(), src);
        assert forall|k: int| 0 <= k < ops.len() implies free_bytes(#[trigger] ops[k], src) is Some by {
            if k < ops.len() - 1 {
                assert(ops[k] == ops.drop_last()[k]);
            }
        }
    }
}

/// Operations that apply from nothing are extracted, each producing at least one byte, when
/// the output and the source fit a usize: the layout ends at the output's length.
proof fn lemma_extract_some(ops: Seq<OpModel>, src: Option<Seq<u8>>, o: Seq<u8>)
    requires
        all_roundtrip_models(ops),
        forall|k: int| 0 <= k < ops.len() ==> op_len(#[trigger] ops[k]) >= 1,
        apply_ops_spec(Seq::empty(), src, ops) == Ok::<Seq<u8>, SmdiffError>(o),
        o.len() <= usize::MAX,
        src matches Some(sb) ==> sb.len() <= usize::MAX,
    ensures
        ops.len() <= o.len(),
        extract_spec(ops) matches Some((sp, st, pos)) && pos == o.len() && st.output_size == o.len()
            && st.add_bytes + st.run_bytes + st.copy_bytes == o.len()
            && st.add_cnt + st.run_cnt + st.copy_d_cnt + st.copy_o_cnt == ops.len(),
    decreases ops.len(),
{
    if ops.len() > 0 {
        let d = ops.drop_last();
        let x = ops.last();
        assert forall|k: int| 0 <= k < d.len() implies op_roundtrips(#[trigger] d[k]) && op_len(d[k]) >= 1 by {
            assert(d[k] == ops[k]);
        }
        assert(op_roundtrips(ops[ops.len() - 1]));
        assert(op_len(ops[ops.len() - 1]) >= 1);
        let o1 = apply_ops_spec(Seq::empty(), src, d)->Ok_0;
        assert(apply_op_spec(o1, src, x) == Ok::<Seq<u8>, SmdiffError>(o));
        assert(o.len() == o1.len() + op_len(x)) by {
            match x {
                OpModel::Copy(c) => {
                    match c.src {
                        CopySrc::Dict => {}
                        CopySrc::Output => {}
                    }
                },
                _ => {},
            }
        }
        lemma_extract_some(d, src, o1);
        assert(op_oal(x) == op_len(x));
        assert(copy_fits(x));
    }
}

/// Where every dictionary copy of free operations that produce bytes from `mid` is at least
/// one byte long, each is resolved in a layout of `mid`.
proof fn lemma_resolvable_in(ops: Seq<OpModel>, pred: Seq<(u64, OpModel)>, mid: Seq<u8>)
    requires
        free_all(ops, Some(mid)) is Some,
        laid_out(pred, mid.len() as int),
        forall|k: int| 0 <= k < ops.len() && is_copy_d(#[trigger] ops[k]) ==> ops[k]->Copy_0.len >= 1,
    ensures
        resolvable(ops, pred),
{
    lemma_free_all_each(ops, Some(mid));
    assert forall|k: int| 0 <= k < ops.len() && is_copy_d(#[trigger] ops[k])
        implies exact_slice_spec(pred, ops[k]->Copy_0.addr as int, ops[k]->Copy_0.len as int) is Some by {
        assert(free_bytes(ops[k], Some(mid)) is Some);
        lemma_exact_slice_some(pred, mid.len() as int, ops[k]->Copy_0.addr as int, ops[k]->Copy_0.len as int);
    }
}

/// Output copies of at least one byte, in operations that apply from nothing to an output
/// that ends inside the u64 range, are all resolved.
proof fn lemma_deref_some(ext: Seq<(u64, OpModel)>, src: Option<Seq<u8>>, o: Seq<u8>)
    requires
        recorded(ext),
        forall|k: int| 0 <= k < ext.len() ==> ((#[trigger] ext[k]).1 is Copy && ext[k].1->Copy_0.src is Output ==> ext[k].1->Copy_0.len >= 1),
        apply_ops_spec(Seq::empty(), src, ops_of(ext)) == Ok::<Seq<u8>, SmdiffError>(o),
        o.len() <= u64::MAX,
    ensures
        deref_spec(ext) is Some,
    decreases ext.len(),
{
    if ext.len() > 0 {
        let d = ext.drop_last();
        let x = ext.last().1;
        assert(ops_of(ext) =~= ops_of(d).push(x));
        assert(ops_of(ext).drop_last() =~= ops_of(d));
        let o1 = apply_ops_spec(Seq::empty(), src, ops_of(d))->Ok_0;
        assert(apply_op_spec(o1, src, x) == Ok::<Seq<u8>, SmdiffError>(o));
        assert(o.len() == o1.len() + op_len(x)) by {
            match x {
                OpModel::Copy(c) => {
                    match c.src {
                        CopySrc::Dict => {}
                        CopySrc::Output => {}
                    }
                },
                _ => {},
            }
        }
        assert forall|k: int| 0 <= k < d.len() implies op_len((#[trigger] d[k]).1) < 0x10000 && copy_fits(d[k].1)
            && (d[k].1 is Copy && d[k].1->Copy_0.src is Output ==> d[k].1->Copy_0.len >= 1) by {
            assert(d[k] == ext[k]);
        }
        assert(op_len(ext[ext.len() - 1].1) < 0x10000 && copy_fits(ext[ext.len() - 1].1));
        lemma_deref_some(d, src, o1);
        lemma_deref_bytes(d, src, o1);
        let (out, cur) = deref_spec(d)->Some_0;
        if x is Copy && x->Copy_0.src is Output {
            let c = x->Copy_0;
            assert(ext[ext.len() - 1].1->Copy_0.len >= 1);
            assert(c.addr + c.len <= o1.len());
            assert(cur == o1.len());
            assert(laid_out(out, cur as int));
            lemma_exact_slice_some(out, cur as int, c.addr as int, c.len as int);
            lemma_exact_slice_bytes(out, c.addr as int, c.len as int, src, o1);
            let res = exact_slice_spec(out, c.addr as int, c.len as int)->Some_0;
            lemma_place_some(out, cur, ops_of(res), src, o1.subrange(c.addr as int, c.addr + c.len));
            assert(place(out, cur, ops_of(res)) is Some);
            assert(deref_spec(ext) == place(out, cur, ops_of(res)));
        } else {
            assert(seq![x].drop_last() =~= Seq::<OpModel>::empty());
            assert(seq![x].last() == x);
            assert(place(out, cur, Seq::<OpModel>::empty()) == Some((out, cur)));
            assert(op_oal(x) == op_len(x));
            assert(copy_fits(x));
            assert(cur + op_oal(x) <= u64::MAX);
            assert(place(out, cur, seq![x]) is Some);
            assert(deref_spec(ext) == place(out, cur, seq![x]));
        }
    }
}

/// A merge succeeds whenever it makes sense: where a summary `t` (laid out from 0, every
/// operation free, every dictionary copy at least one byte long) gives `out` from `mid`, and
/// the earlier patch gives `mid` from `src` (each of its operations producing at least one
/// byte), merging the earlier patch under `t` is Ok, whatever operations the earlier patch
/// holds (with copies or without), and the merged summary gives `out` from `src`. The sizes
/// involved fit a usize.
pub proof fn lemma_merge_succeeds(t: Seq<(u64, OpModel)>, pred_patch: Seq<u8>, src: Option<Seq<u8>>, mid: Seq<u8>, out: Seq<u8>)
    requires
        summary_ready(t),
        forall|k: int| 0 <= k < ops_of(t).len() && is_copy_d(#[trigger] ops_of(t)[k]) ==> ops_of(t)[k]->Copy_0.len >= 1,
        apply_ops_spec(Seq::empty(), Some(mid), ops_of(t)) == Ok::<Seq<u8>, SmdiffError>(out),
        decode_patch_spec(pred_patch, 0, src, Seq::empty()) == Ok::<Seq<u8>, SmdiffError>(mid),
        patch_ops_spec(pred_patch, 0) matches Ok(ops) ==> forall|k: int| 0 <= k < ops.len() ==> op_len(#[trigger] ops[k]) >= 1,
        mid.len() <= usize::MAX,
        out.len() <= usize::MAX,
        src matches Some(sb) ==> sb.len() <= usize::MAX,
    ensures
        merge_spec(t, pred_patch) is Ok,
        merge_spec(t, pred_patch) matches Ok(m) ==> summary_ready(m)
            && apply_ops_spec(Seq::empty(), src, ops_of(m)) == Ok::<Seq<u8>, SmdiffError>(out),
{
    lemma_decode_reads_ops(pred_patch, 0, src, Seq::empty());
    let ops = patch_ops_spec(pred_patch, 0)->Ok_0;
    lemma_decode_is_apply(pred_patch, 0, src, Seq::empty());
    lemma_patch_ops_roundtrip(pred_patch, 0);
    lemma_extract_some(ops, src, mid);
    lemma_extract_layout(ops);
    let (sp, st, pos) = extract_spec(ops)->Some_0;
    assert forall|k: int| 0 <= k < ops.len() implies ((#[trigger] ops[k]) is Copy && ops[k]->Copy_0.src is Output ==> ops[k]->Copy_0.len > 0) by {
        assert(op_len(ops[k]) >= 1);
    }
    assert(no_empty_output_copy(ops));
    if st.copy_bytes > 0 {
        assert forall|k: int| 0 <= k < sp.len() implies op_len((#[trigger] sp[k]).1) < 0x10000 && copy_fits(sp[k].1)
            && (sp[k].1 is Copy && sp[k].1->Copy_0.src is Output ==> sp[k].1->Copy_0.len >= 1) by {
            assert(ops_of(sp)[k] == sp[k].1);
            assert(op_roundtrips(ops[k]));
            assert(op_len(ops[k]) >= 1);
        }
        lemma_deref_some(sp, src, mid);
    }
    lemma_predecessor_bytes(pred_patch, src, mid);
    let pred = predecessor_spec(pred_patch)->Ok_0;
    lemma_apply_free_from_empty(Some(mid), ops_of(t), out);
    lemma_resolvable_in(ops_of(t), pred, mid);
    lemma_resolve_bytes(ops_of(t), pred, src, mid);
    lemma_place_some(Seq::empty(), 0, flat_resolve(ops_of(t), pred), src, out);
    lemma_merge_summary(t, pred_patch, src, mid, out);
}

/// Starting a merge succeeds on every terminal patch that applies: where the terminal patch
/// gives `out` from `src` (each of its operations producing at least one byte, the sizes
/// fitting a usize), what a Merger starts from is Ok, and (as `lemma_terminal_summary` says)
/// gives `out` from `src`.
pub proof fn lemma_terminal_succeeds(term: Seq<u8>, src: Option<Seq<u8>>, out: Seq<u8>)
    requires
        decode_patch_spec(term, 0, src, Seq::empty()) == Ok::<Seq<u8>, SmdiffError>(out),
        patch_ops_spec(term, 0) matches Ok(ops) ==> forall|k: int| 0 <= k < ops.len() ==> op_len(#[trigger] ops[k]) >= 1,
        out.len() <= usize::MAX,
        src matches Some(sb) ==> sb.len() <= usize::MAX,
    ensures
        terminal_spec_of(term) is Ok,
{
    lemma_decode_reads_ops(term, 0, src, Seq::empty());
    let ops = patch_ops_spec(term, 0)->Ok_0;
    lemma_decode_is_apply(term, 0, src, Seq::empty());
    lemma_patch_ops_roundtrip(term, 0);
    lemma_extract_some(ops, src, out);
    lemma_extract_layout(ops);
    let (sp, st, pos) = extract_spec(ops)->Some_0;
    if st.copy_bytes != 0 {
        assert forall|k: int| 0 <= k < sp.len() implies op_len((#[trigger] sp[k]).1) < 0x10000 && copy_fits(sp[k].1)
            && (sp[k].1 is Copy && sp[k].1->Copy_0.src is Output ==> sp[k].1->Copy_0.len >= 1) by {
            assert(ops_of(sp)[k] == sp[k].1);
            assert(op_roundtrips(ops[k]));
            assert(op_len(ops[k]) >= 1);
        }
        lemma_deref_some(sp, src, out);
    }
}

} // verus!
