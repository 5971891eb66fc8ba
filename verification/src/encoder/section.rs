//! Writes encoded sections, with secondary compression when asked, and encodes a whole
//! target into a patch.
use vstd::prelude::*;
use crate::common::{
    models, op_len, op_model, op_oal, push_slice, u16_le_bytes, zigzag_spec, lemma_pow128_10, lemma_u_varint_len,
    lemma_zigzag_roundtrip, AddOp, Format, Op, OpModel, SectionHeader, SmdiffError, MAX_INST_SIZE, MAX_WIN_SIZE,
};
use crate::decoder::{
    apply_ops_spec, decode_patch_spec, header_fits, lemma_decode_sections, lemma_nested_patch, nested_patch_of, section_written,
    sections_written, src_view, written_bytes, written_ops,
};
use crate::decoder::{iter_from, lemma_iterate_written};
use crate::reader::{lemma_add_sums, lemma_sums_bound};
use crate::writer::{
    clamp_section_size, header_bytes, make_sections, op_addtl_bytes, op_head_bytes, ops_add_bytes, ops_body,
    ops_bytes, ops_oal_sum, section_header_for, sections_ops, write_ops, write_section_header, addrs_after,
};
use crate::encoder::config::{algo_value_spec, BrotliMode, BrotliOptions, EncoderConfig, SecondaryCompression};
use brotlic::encode::{BrotliEncoderOptions, CompressorWriter};
use brotlic::{BlockSize, Quality, WindowSize};
use brotlic::CompressionMode::{Font, Generic, Text};
use std::io::Write;
use crate::encoder::inner::{encode_inner, inner_result, GenericEncoderConfig, InnerOp};
use crate::encoder::op_maker::{dict_bytes, op_emittable, resolve_spec, translate_from, translate_inner_ops, AddRef};
use crate::encoder::trgt_matcher::capacity_ok;

verus! {

/// What zstd makes of `data` at compression `level`: one frame with the content size in its
/// header; None where zstd refuses the settings.
pub uninterp spec fn zstd_compressed(data: Seq<u8>, level: i32) -> Option<Seq<u8>>;

/// What brotli makes of `data` with `options` (and `data`'s length as size hint): one
/// stream; None where brotli refuses the settings.
pub uninterp spec fn brotli_compressed(data: Seq<u8>, options: BrotliOptions) -> Option<Seq<u8>>;

/// Compresses `data` with `zstd::stream::Encoder` at `level`, the source size pledged and
/// recorded in the frame. Trusted: the compressed frame is named by `zstd_compressed`
/// (the same input and level give the same frame); None is any error zstd reports.
#[verifier::external_body]
fn zstd_compress(data: &[u8], level: i32) -> (r: Option<Vec<u8>>)
    ensures
        match r {
            Some(z) => zstd_compressed(data@, level) == Some(z@),
            None => zstd_compressed(data@, level) is None,
        },
{
    let mut enc = zstd::stream::Encoder::new(Vec::new(), level).ok()?;
    enc.set_pledged_src_size(Some(data.len() as u64)).ok()?;
    enc.include_contentsize(true).ok()?;
    std::io::Write::write_all(&mut enc, data).ok()?;
    enc.finish().ok()
}

/// Compresses `data` with `brotlic::CompressorWriter`, its encoder built from `options`
/// (quality, window and block size, mode; the input length as size hint). Trusted: the stream is
/// named by `brotli_compressed`; None is a setting brotli refuses or any error it reports.
#[verifier::external_body]
fn brotli_compress(data: &[u8], options: &BrotliOptions) -> (r: Option<Vec<u8>>)
    ensures
        match r {
            Some(b) => brotli_compressed(data@, *options) == Some(b@),
            None => brotli_compressed(data@, *options) is None,
        },
{
    let mut o = BrotliEncoderOptions::new();
    if let Some(q) = options.quality { o.quality(Quality::new(q).ok()?); }
    if let Some(w) = options.window_bits { o.window_size(WindowSize::new(w).ok()?); }
    if let Some(b) = options.block_bits { o.block_size(BlockSize::new(b).ok()?); }
    if let Some(m) = options.mode { o.mode(match m { BrotliMode::Generic => Generic, BrotliMode::Text => Text, BrotliMode::Font => Font }); }
    o.size_hint(data.len() as u32);
    let mut w = CompressorWriter::with_encoder(o.build().ok()?, Vec::new());
    w.write_all(data).ok()?;
    w.into_inner().ok()
}

/// The header a section is written with: the compression field names the algorithm.
pub open spec fn header_with(comp: Option<SecondaryCompression>, h: SectionHeader) -> SectionHeader {
    match comp {
        None => h,
        Some(c) => SectionHeader { compression_algo: algo_value_spec(c), ..h },
    }
}

/// What follows a section header for section body `data` under secondary compression `comp`.
pub open spec fn payload_for(comp: Option<SecondaryCompression>, data: Seq<u8>, payload: Seq<u8>) -> bool {
    match comp {
        None => payload == data,
        Some(SecondaryCompression::Smdiff(_)) => nested_patch_of(payload, data),
        Some(SecondaryCompression::Zstd { level }) => zstd_compressed(data, level) == Some(payload),
        Some(SecondaryCompression::Brotli { options }) => brotli_compressed(data, options) == Some(payload),
    }
}

/// The outside compressor refuses the section body `data`.
pub open spec fn compression_fails(comp: Option<SecondaryCompression>, data: Seq<u8>) -> bool {
    match comp {
        Some(SecondaryCompression::Zstd { level }) => zstd_compressed(data, level) is None,
        Some(SecondaryCompression::Brotli { options }) => brotli_compressed(data, options) is None,
        _ => false,
    }
}

/// The header agrees with the operations as `write_ops` checks it.
pub open spec fn ops_match(h: SectionHeader, ops: Seq<OpModel>) -> bool {
    &&& h.output_size <= MAX_WIN_SIZE
    &&& ops.len() == h.num_operations
    &&& h.format is Segregated ==> ops_add_bytes(ops).len() == h.num_add_bytes
    &&& ops_oal_sum(ops) == h.output_size
}

/// The section body a writer compresses: the operations' bytes after what the buffer held
/// (with no secondary compression the buffer is not used).
pub open spec fn section_data(comp: Option<SecondaryCompression>, buffer: Seq<u8>, ops: Seq<OpModel>, format: Format) -> Seq<u8> {
    if comp is None {
        ops_bytes(ops, format)
    } else {
        buffer + ops_bytes(ops, format)
    }
}

/// The matchers of a nested SMDIFF patch can be built.
pub open spec fn sec_comp_buildable(comp: Option<SecondaryCompression>) -> bool {
    comp matches Some(SecondaryCompression::Smdiff(c)) ==> (c.prev_table_capacity matches Some(t) ==> capacity_ok(t))
}

// ---------------------------------------------------------------------------
// Bookkeeping lemmas
// ---------------------------------------------------------------------------
proof fn lemma_written_push(secs: Seq<(SectionHeader, Seq<OpModel>, Seq<u8>)>, x: (SectionHeader, Seq<OpModel>, Seq<u8>))
    ensures
        written_ops(secs.push(x)) == written_ops(secs) + x.1,
        written_bytes(secs.push(x)) == written_bytes(secs) + (header_bytes(x.0) + x.2),
    decreases secs.len(),
{
    if secs.len() == 0 {
        assert(secs.push(x).drop_first() =~= Seq::<(SectionHeader, Seq<OpModel>, Seq<u8>)>::empty());
        assert(written_ops(secs.push(x).drop_first()) == Seq::<OpModel>::empty());
        assert(written_bytes(secs.push(x).drop_first()) == Seq::<u8>::empty());
        assert(written_ops(secs.push(x)) =~= written_ops(secs) + x.1);
        assert(written_bytes(secs.push(x)) =~= written_bytes(secs) + (header_bytes(x.0) + x.2));
    } else {
        lemma_written_push(secs.drop_first(), x);
        assert(secs.push(x).drop_first() =~= secs.drop_first().push(x));
        assert(written_ops(secs.push(x)) =~= written_ops(secs) + x.1);
        assert(written_bytes(secs.push(x)) =~= written_bytes(secs) + (header_bytes(x.0) + x.2));
    }
}

proof fn lemma_models_concat<A: AddOp>(a: Seq<Op<A>>, b: Seq<Op<A>>)
    ensures
        models(a + b) == models(a) + models(b),
{
    assert(models(a + b) =~= models(a) + models(b));
}

/// Section `k`'s operations stand, in order, right after those of the sections before it.
proof fn lemma_section_slice<'a, A: AddOp>(secs: Seq<(&'a [Op<A>], SectionHeader)>, k: int)
    requires
        0 <= k < secs.len(),
    ensures
        sections_ops(secs.subrange(0, k)).len() + secs[k].0@.len() <= sections_ops(secs).len(),
        sections_ops(secs).subrange(
            sections_ops(secs.subrange(0, k)).len() as int,
            (sections_ops(secs.subrange(0, k)).len() + secs[k].0@.len()) as int,
        ) == secs[k].0@,
    decreases secs.len(),
{
    let dl = secs.drop_last();
    let pre = sections_ops(dl);
    let last = secs.last().0@;
    assert(sections_ops(secs) == pre + last);
    if k == secs.len() - 1 {
        assert(secs.subrange(0, k) =~= dl);
        assert((pre + last).subrange(pre.len() as int, (pre.len() + last.len()) as int) =~= last);
    } else {
        lemma_section_slice(dl, k);
        assert(dl.subrange(0, k) =~= secs.subrange(0, k));
        assert(dl[k] == secs[k]);
        let a = sections_ops(secs.subrange(0, k)).len() as int;
        assert((pre + last).subrange(a, a + secs[k].0@.len()) =~= pre.subrange(a, a + secs[k].0@.len()));
    }
}

/// Every operation of a section made by `make_sections` is one of the operations given.
proof fn lemma_sections_contain<'a, A: AddOp>(secs: Seq<(&'a [Op<A>], SectionHeader)>, k: int, j: int)
    requires
        0 <= k < secs.len(),
        0 <= j < secs[k].0@.len(),
    ensures
        sections_ops(secs).contains(secs[k].0@[j]),
    decreases secs.len(),
{
    let dl = secs.drop_last();
    let pre = sections_ops(dl);
    let last = secs.last().0@;
    assert(sections_ops(secs) == pre + last);
    if k == secs.len() - 1 {
        assert((pre + last)[pre.len() + j] == last[j]);
    } else {
        lemma_sections_contain(dl, k, j);
        assert(dl[k] == secs[k]);
        let i = choose|i: int| 0 <= i < pre.len() && pre[i] == secs[k].0@[j];
        assert((pre + last)[i] == pre[i]);
    }
}

/// Operations that each produce at least one byte are no more than the bytes they produce.
proof fn lemma_emittable_count(ops: Seq<OpModel>)
    requires
        forall|i: int| 0 <= i < ops.len() ==> op_emittable(#[trigger] ops[i]),
    ensures
        ops.len() <= ops_oal_sum(ops),
    decreases ops.len(),
{
    if ops.len() > 0 {
        let dl = ops.drop_last();
        assert forall|i: int| 0 <= i < dl.len() implies op_emittable(#[trigger] dl[i]) by {
            assert(dl[i] == ops[i]);
        }
        lemma_emittable_count(dl);
        assert(op_emittable(ops[ops.len() - 1]));
    }
}

/// The bytes of a section body are at most fourteen per output byte.
#[verifier::rlimit(40)]
#[verifier::spinoff_prover]
proof fn lemma_ops_bytes_bound(ops: Seq<OpModel>, seg: bool)
    requires
        forall|i: int| 0 <= i < ops.len() ==> op_emittable(#[trigger] ops[i]),
    ensures
        ops_body(ops, seg).len() + (if seg { ops_add_bytes(ops).len() } else { 0 }) <= 14 * ops_oal_sum(ops),
    decreases ops.len(),
{
    if ops.len() > 0 {
        let dl = ops.drop_last();
        assert forall|i: int| 0 <= i < dl.len() implies op_emittable(#[trigger] dl[i]) by {
            assert(dl[i] == ops[i]);
        }
        lemma_ops_bytes_bound(dl, seg);
        let op = ops.last();
        assert(op_emittable(ops[ops.len() - 1]));
        let (d, o) = addrs_after(dl);
        assert(op_head_bytes(op).len() <= 3) by {
            assert(u16_le_bytes(op_oal(op) as u16).len() == 2);
        }
        assert(op_addtl_bytes(op, d, o).len() <= 10 + op_len(op)) by {
            if let OpModel::Copy(c) = op {
                lemma_pow128_10();
                let base = if c.src is Dict { d } else { o };
                let delta = crate::common::wrap_i64(c.addr - base) as i64;
                lemma_zigzag_roundtrip(delta, 0);
                lemma_u_varint_len(zigzag_spec(delta as int) as nat, 10);
            }
        }
    }
}

// ---------------------------------------------------------------------------
// Writing
// ---------------------------------------------------------------------------
/// Writes a section to a writer, with secondary compression if requested: the header
/// (its compression field set to the algorithm) and then the operations, or what the
/// secondary compression makes of them (a nested SMDIFF patch of them, a zstd frame or a
/// brotli stream). The operations go through `sec_data_buffer` when compressed, which is
/// left empty.
#[verifier::spinoff_prover]
#[verifier::rlimit(50)]
pub fn section_writer<A: AddOp>(
    sec_comp: &Option<SecondaryCompression>,
    header: SectionHeader,
    writer: &mut Vec<u8>,
    seg_ops: &[Op<A>],
    sec_data_buffer: &mut Vec<u8>,
) -> (r: Result<(), SmdiffError>)
    requires
        forall|i: int| 0 <= i < seg_ops@.len() ==> crate::writer::op_writable(op_model(#[trigger] seg_ops@[i])),
        header.format is Segregated ==> header.num_add_bytes <= header.output_size,
        sec_comp_buildable(*sec_comp),
    ensures
        !ops_match(header, models(seg_ops@)) ==> r == Err::<(), SmdiffError>(SmdiffError::InvalidData),
        ops_match(header, models(seg_ops@)) ==> ({
            let data = section_data(*sec_comp, old(sec_data_buffer)@, models(seg_ops@), header.format);
            let too_long = sec_comp matches Some(SecondaryCompression::Smdiff(_)) && data.len() >= usize::MAX / 2;
            &&& (r is Err <==> compression_fails(*sec_comp, data) || too_long)
            &&& compression_fails(*sec_comp, data) ==> r == Err::<(), SmdiffError>(SmdiffError::Compression)
            &&& too_long ==> r == Err::<(), SmdiffError>(SmdiffError::InvalidData)
            &&& r is Ok ==> exists|pl: Seq<u8>| final(writer)@ == old(writer)@ + (header_bytes(header_with(*sec_comp, header)) + pl)
                && #[trigger] payload_for(*sec_comp, data, pl)
            &&& r is Ok && sec_comp is Some ==> final(sec_data_buffer)@.len() == 0
        }),
        sec_comp is None ==> final(sec_data_buffer)@ == old(sec_data_buffer)@,
{
    let ghost w0 = writer@;
    match sec_comp {
        None => {
            let _ = write_section_header(&header, writer);
            let ghost w1 = writer@;
            let res = write_ops(seg_ops, &header, writer);
            proof {
                if ops_match(header, models(seg_ops@)) {
                    let pl = ops_bytes(models(seg_ops@), header.format);
                    assert(writer@ =~= w0 + (header_bytes(header) + pl));
                    assert(payload_for(*sec_comp, section_data(*sec_comp, old(sec_data_buffer)@, models(seg_ops@), header.format), pl));
                }
            }
            res
        },
        Some(comp) => {
            let comp = *comp;
            let header = SectionHeader { compression_algo: comp.algo_value(), ..header };
            let ghost b0 = sec_data_buffer@;
            let _ = write_section_header(&header, writer);
            let ghost w1 = writer@;
            write_ops(seg_ops, &header, sec_data_buffer)?;
            let ghost data = sec_data_buffer@;
            match comp {
                SecondaryCompression::Smdiff(config) => {
                    if sec_data_buffer.len() >= usize::MAX / 2 {
                        return Err(SmdiffError::InvalidData);
                    }
                    let inner = GenericEncoderConfig { match_trgt: Some(config), match_src: None, lazy_escape_len: None, naive_tests: None };
                    let secs = write_plain_patch(None, sec_data_buffer.as_slice(), inner, Format::Interleaved, MAX_WIN_SIZE, writer);
                    proof {
                        let pl = written_bytes(secs@);
                        lemma_nested_patch(pl, data, secs@);
                        assert(writer@ =~= w0 + (header_bytes(header) + pl));
                        assert(payload_for(Some(comp), data, pl));
                    }
                },
                SecondaryCompression::Zstd { level } => {
                    match zstd_compress(sec_data_buffer.as_slice(), level) {
                        Some(z) => {
                            push_slice(writer, z.as_slice());
                            proof {
                                assert(writer@ =~= w0 + (header_bytes(header) + z@));
                                assert(payload_for(Some(comp), data, z@));
                            }
                        },
                        None => return Err(SmdiffError::Compression),
                    }
                },
                SecondaryCompression::Brotli { options } => {
                    match brotli_compress(sec_data_buffer.as_slice(), &options) {
                        Some(b) => {
                            push_slice(writer, b.as_slice());
                            proof {
                                assert(writer@ =~= w0 + (header_bytes(header) + b@));
                                assert(payload_for(Some(comp), data, b@));
                            }
                        },
                        None => return Err(SmdiffError::Compression),
                    }
                },
            }
            sec_data_buffer.clear();
            Ok(())
        },
    }
}

/// Finds the operations that rebuild `trgt` from `dict`: the matches the encoder finds,
/// trimmed, with the gaps between them filled by Adds.
fn find_ops<'a>(dict: Option<&[u8]>, trgt: &'a [u8], inner: &mut GenericEncoderConfig) -> (r: Vec<Op<AddRef<'a>>>)
    requires
        old(inner).buildable(),
        trgt@.len() < usize::MAX / 2,
    ensures
        apply_ops_spec(Seq::empty(), src_view(dict), models(r@)) == Ok::<Seq<u8>, SmdiffError>(trgt@),
        forall|i: int| 0 <= i < r@.len() ==> op_emittable(op_model(#[trigger] r@[i])),
        exists|found: Seq<InnerOp>| #[trigger] inner_result(*old(inner), dict_bytes(src_view(dict)), trgt@, found)
            && models(r@) == translate_from(resolve_spec(found, 0, 1), trgt@, 0, 0),
{
    let empty: Vec<u8> = Vec::new();
    let src: &[u8] = match dict {
        Some(d) => d,
        None => empty.as_slice(),
    };
    let src_len = src.len();
    proof {
        assert(dict_bytes(src_view(dict)) == src@);
        assert(src@.len() == src_len);
    }
    let inner_ops = encode_inner(inner, src, trgt);
    let ghost found = inner_ops@;
    let r = translate_inner_ops(trgt, inner_ops, Ghost(src_view(dict)));
    proof {
        assert(inner_result(*old(inner), dict_bytes(src_view(dict)), trgt@, found));
    }
    r
}

/// The sections `make_sections` gave, written in `format`, are sections whose headers fit.
proof fn lemma_section_fits<'a, A: AddOp>(
    sections: Seq<(&'a [Op<A>], SectionHeader)>,
    ops: Seq<Op<A>>,
    k: int,
    format: Format,
    max_section_size: usize,
)
    requires
        sections_ops(sections) == ops,
        forall|i: int| 0 <= i < ops.len() ==> op_emittable(op_model(#[trigger] ops[i])),
        0 <= k < sections.len(),
        sections[k].1 == section_header_for(models(sections[k].0@), k < sections.len() - 1),
        ops_oal_sum(models(sections[k].0@)) <= clamp_section_size(max_section_size),
    ensures
        header_fits(SectionHeader { format, ..sections[k].1 }, models(sections[k].0@)),
        ops_match(SectionHeader { format, ..sections[k].1 }, models(sections[k].0@)),
        forall|i: int| 0 <= i < sections[k].0@.len() ==> op_emittable(op_model(#[trigger] sections[k].0@[i])),
        ops_bytes(models(sections[k].0@), format).len() <= 14 * MAX_WIN_SIZE,
        sections[k].1.num_add_bytes <= sections[k].1.output_size,
{
    let seg = sections[k].0@;
    let ms = models(seg);
    assert forall|j: int| 0 <= j < seg.len() implies op_emittable(op_model(#[trigger] seg[j])) by {
        lemma_sections_contain(sections, k, j);
        let i = choose|i: int| 0 <= i < ops.len() && ops[i] == seg[j];
        assert(op_emittable(op_model(ops[i])));
    }
    assert forall|j: int| 0 <= j < ms.len() implies op_emittable(#[trigger] ms[j]) by {
        assert(op_emittable(op_model(seg[j])));
    }
    assert forall|j: int| 0 <= j < ms.len() implies crate::reader::op_roundtrips(#[trigger] ms[j]) by {
        assert(op_emittable(ms[j]));
    }
    lemma_emittable_count(ms);
    lemma_sums_bound(ms);
    lemma_add_sums(ms);
    lemma_ops_bytes_bound(ms, format is Segregated);
}

/// Encodes `trgt` against `dict` into sections of at most `segment_size` output bytes (clamped
/// to MAX_INST_SIZE..=MAX_WIN_SIZE) in `format`, with no secondary compression, appended to
/// `writer`.
#[verifier::spinoff_prover]
#[verifier::rlimit(50)]
fn write_plain_patch(
    dict: Option<&[u8]>,
    trgt: &[u8],
    inner: GenericEncoderConfig,
    format: Format,
    segment_size: usize,
    writer: &mut Vec<u8>,
) -> (secs: Ghost<Seq<(SectionHeader, Seq<OpModel>, Seq<u8>)>>)
    requires
        inner.buildable(),
        trgt@.len() < usize::MAX / 2,
    ensures
        sections_written(secs@, false),
        final(writer)@ == old(writer)@ + written_bytes(secs@),
        apply_ops_spec(Seq::empty(), src_view(dict), written_ops(secs@)) == Ok::<Seq<u8>, SmdiffError>(trgt@),
{
    let mut inner = inner;
    let ops = find_ops(dict, trgt, &mut inner);
    let sections = make_sections(ops.as_slice(), segment_size);
    let n = sections.len();
    let ghost w0 = writer@;
    let ghost mut secs: Seq<(SectionHeader, Seq<OpModel>, Seq<u8>)> = Seq::empty();
    let mut k: usize = 0;
    proof {
        assert(sections@.subrange(0, 0) =~= Seq::<(&[Op<AddRef>], SectionHeader)>::empty());
        assert(written_ops(secs) =~= models(sections_ops(sections@.subrange(0, 0))));
    }
    while k < n
        invariant
            n == sections@.len() >= 1,
            k <= n,
            secs.len() == k,
            sections_ops(sections@) == ops@,
            forall|i: int| 0 <= i < ops@.len() ==> op_emittable(op_model(#[trigger] ops@[i])),
            forall|j: int| 0 <= j < sections@.len() ==> (#[trigger] sections@[j]).1 == section_header_for(models(sections@[j].0@), j < sections@.len() - 1),
            forall|j: int| 0 <= j < sections@.len() ==> ops_oal_sum(models((#[trigger] sections@[j]).0@)) <= clamp_section_size(segment_size),
            writer@ == w0 + written_bytes(secs),
            written_ops(secs) == models(sections_ops(sections@.subrange(0, k as int))),
            forall|j: int| 0 <= j < k ==> section_written(#[trigger] secs[j], j == n - 1, false),
        decreases n - k,
    {
        let (seg_ops, header0) = sections[k];
        let header = SectionHeader { format, ..header0 };
        proof {
            lemma_section_fits(sections@, ops@, k as int, format, segment_size);
        }
        let ghost wb = writer@;
        let _ = write_section_header(&header, writer);
        let _ = write_ops(seg_ops, &header, writer);
        proof {
            let x = (header, models(seg_ops@), ops_bytes(models(seg_ops@), format));
            lemma_written_push(secs, x);
            assert(writer@ =~= wb + (header_bytes(x.0) + x.2));
            let old_secs = secs;
            secs = secs.push(x);
            assert(section_written(x, k == n - 1, false));
            assert forall|j: int| 0 <= j < k + 1 implies section_written(#[trigger] secs[j], j == n - 1, false) by {
                if j < k {
                    assert(secs[j] == old_secs[j]);
                }
            }
            let sub = sections@.subrange(0, k + 1);
            assert(sub.drop_last() =~= sections@.subrange(0, k as int));
            lemma_models_concat(sections_ops(sections@.subrange(0, k as int)), seg_ops@);
        }
        k = k + 1;
    }
    proof {
        assert(sections@.subrange(0, n as int) =~= sections@);
    }
    Ghost(secs)
}

/// The patch `bytes` is made of the sections `secs`, each header fitting its operations, in
/// `format`, of at most `seg_size` output bytes, only the last terminal, each followed by what
/// the secondary compression `comp` makes of its operations.
pub open spec fn encoded_as(
    bytes: Seq<u8>,
    secs: Seq<(SectionHeader, Seq<OpModel>, Seq<u8>)>,
    comp: Option<SecondaryCompression>,
    format: Format,
    seg_size: nat,
) -> bool {
    &&& secs.len() >= 1
    &&& bytes == written_bytes(secs)
    &&& forall|k: int| 0 <= k < secs.len() ==> {
        &&& header_fits((#[trigger] secs[k]).0, secs[k].1)
        &&& secs[k].0.more_sections == (k < secs.len() - 1)
        &&& secs[k].0.format == format
        &&& secs[k].0.compression_algo == (match comp { None => 0u8, Some(c) => algo_value_spec(c) })
        &&& secs[k].0.output_size <= seg_size
        &&& payload_for(comp, ops_bytes(secs[k].1, format), secs[k].2)
    }
}

/// A patch made of sections that are plain or carry nested SMDIFF patches decodes to what
/// its operations give.
pub proof fn lemma_encoded_decodes(
    bytes: Seq<u8>,
    secs: Seq<(SectionHeader, Seq<OpModel>, Seq<u8>)>,
    comp: Option<SecondaryCompression>,
    format: Format,
    seg_size: nat,
    src: Option<Seq<u8>>,
)
    requires
        encoded_as(bytes, secs, comp, format, seg_size),
        comp is None || comp matches Some(SecondaryCompression::Smdiff(_)),
    ensures
        decode_patch_spec(bytes, 0, src, Seq::empty()) == apply_ops_spec(Seq::empty(), src, written_ops(secs)),
{
    assert forall|k: int| 0 <= k < secs.len() implies section_written(#[trigger] secs[k], k == secs.len() - 1, true) by {
        assert(header_fits(secs[k].0, secs[k].1));
    }
    assert(bytes.subrange(0, bytes.len() as int) =~= bytes);
    lemma_decode_sections(bytes, 0, src, Seq::empty(), secs);
}

/// Sections encoded without secondary compression are written as plain sections.
proof fn lemma_encoded_plain(bytes: Seq<u8>, secs: Seq<(SectionHeader, Seq<OpModel>, Seq<u8>)>, format: Format, seg_size: nat)
    requires
        encoded_as(bytes, secs, None, format, seg_size),
    ensures
        sections_written(secs, false),
{
    assert forall|k: int| 0 <= k < secs.len() implies section_written(#[trigger] secs[k], k == secs.len() - 1, false) by {
        assert(header_fits(secs[k].0, secs[k].1));
    }
}

/// A patch written without secondary compression reads back, through the section
/// iterator, as its sections in order: the `i`-th call gives section `i`, in `format`,
/// terminal only for the last one, of at most `seg_size` output bytes, with the operations
/// written; after the last one the iterator is done.
#[verifier::rlimit(40)]
#[verifier::spinoff_prover]
pub proof fn lemma_encoded_reads_back(
    bytes: Seq<u8>,
    secs: Seq<(SectionHeader, Seq<OpModel>, Seq<u8>)>,
    format: Format,
    seg_size: nat,
)
    requires
        encoded_as(bytes, secs, None, format, seg_size),
    ensures
        forall|i: nat| i < secs.len() ==> {
            &&& !(#[trigger] iter_from(bytes, 0, i)).1
            &&& crate::reader::read_section_spec(bytes, iter_from(bytes, 0, i).0) matches Ok((h, ops, _))
            &&& ops == secs[i as int].1
            &&& h.format == format
            &&& h.more_sections == (i < secs.len() - 1)
            &&& h.output_size <= seg_size
        },
        iter_from(bytes, 0, secs.len()).1,
{
    lemma_encoded_plain(bytes, secs, format, seg_size);
    assert(bytes.subrange(0, bytes.len() as int) =~= bytes);
    lemma_iterate_written(bytes, 0, secs);
    assert forall|i: nat| i < secs.len() implies {
        &&& !(#[trigger] iter_from(bytes, 0, i)).1
        &&& crate::reader::read_section_spec(bytes, iter_from(bytes, 0, i).0) matches Ok((h, ops, _))
        &&& ops == secs[i as int].1
        &&& h.format == format
        &&& h.more_sections == (i < secs.len() - 1)
        &&& h.output_size <= seg_size
    } by {
        let k = i as int;
        let x = secs[k];
        assert(x.0.format == format && x.0.more_sections == (k < secs.len() - 1) && x.0.output_size <= seg_size);
        assert(!iter_from(bytes, 0, i).1);
        assert(crate::reader::read_section_spec(bytes, iter_from(bytes, 0, i).0) matches Ok((h, ops, _))
            && ops == x.1 && h == SectionHeader { num_add_bytes: ops_add_bytes(x.1).len() as u32, ..x.0 });
    }
}

/// The operations all round-trip through the format.
pub open spec fn all_roundtrip<A: AddOp>(ops: Seq<Op<A>>) -> bool {
    forall|i: int| 0 <= i < ops.len() ==> crate::reader::op_roundtrips(op_model(#[trigger] ops[i]))
}

/// The operations all round-trip and each produces at least one byte.
pub open spec fn all_emittable(ops: Seq<OpModel>) -> bool {
    forall|i: int| 0 <= i < ops.len() ==> op_emittable(#[trigger] ops[i])
}

/// The facts `encoded_as` keeps about section `k` of `secs`.
pub open spec fn section_encoded(
    secs: Seq<(SectionHeader, Seq<OpModel>, Seq<u8>)>,
    k: int,
    n: int,
    comp: Option<SecondaryCompression>,
    format: Format,
    seg_size: nat,
) -> bool {
    &&& header_fits(secs[k].0, secs[k].1)
    &&& secs[k].0.more_sections == (k < n - 1)
    &&& secs[k].0.format == format
    &&& secs[k].0.compression_algo == (match comp { None => 0u8, Some(c) => algo_value_spec(c) })
    &&& secs[k].0.output_size <= seg_size
    &&& payload_for(comp, ops_bytes(secs[k].1, format), secs[k].2)
}

/// Writes `ops` as sections of at most `max_section_size` output bytes (clamped to
/// MAX_INST_SIZE..=MAX_WIN_SIZE) in `format`, each through `section_writer` with the
/// secondary compression `sec_comp`, and stops at the first section that fails.
#[verifier::spinoff_prover]
#[verifier::rlimit(50)]
pub fn write_sections<A: AddOp>(
    ops: &[Op<A>],
    max_section_size: usize,
    format: Format,
    sec_comp: &Option<SecondaryCompression>,
    writer: &mut Vec<u8>,
) -> (r: Result<(), SmdiffError>)
    requires
        forall|i: int| 0 <= i < ops@.len() ==> crate::writer::op_writable(op_model(#[trigger] ops@[i])),
        sec_comp_buildable(*sec_comp),
    ensures
        r is Err ==> r == Err::<(), SmdiffError>(SmdiffError::Compression) || r == Err::<(), SmdiffError>(SmdiffError::InvalidData),
        all_roundtrip(ops@) && r is Ok ==> exists|secs: Seq<(SectionHeader, Seq<OpModel>, Seq<u8>)>| {
            &&& final(writer)@ == old(writer)@ + written_bytes(secs)
            &&& #[trigger] encoded_as(written_bytes(secs), secs, *sec_comp, format, clamp_section_size(max_section_size))
            &&& written_ops(secs) == models(ops@)
        },
        all_emittable(models(ops@)) ==> (r is Err ==> r == Err::<(), SmdiffError>(SmdiffError::Compression)),
        all_emittable(models(ops@)) && (*sec_comp is None || *sec_comp matches Some(SecondaryCompression::Smdiff(_))) ==> r is Ok,
        r == Err::<(), SmdiffError>(SmdiffError::Compression) ==> exists|a: int, b: int| 0 <= a <= b <= ops@.len()
            && #[trigger] compression_fails(*sec_comp, ops_bytes(models(ops@).subrange(a, b), format)),
{
    let sections = make_sections(ops, max_section_size);
    let n = sections.len();
    let mut win_data: Vec<u8> = Vec::new();
    let ghost w0 = writer@;
    let ghost mut secs: Seq<(SectionHeader, Seq<OpModel>, Seq<u8>)> = Seq::empty();
    let ghost seg_size = clamp_section_size(max_section_size);
    let ghost rt = all_roundtrip(ops@);
    let ghost em = all_emittable(models(ops@));
    let mut k: usize = 0;
    proof {
        assert(sections@.subrange(0, 0) =~= Seq::<(&[Op<A>], SectionHeader)>::empty());
        assert(written_ops(secs) =~= models(sections_ops(sections@.subrange(0, 0))));
        assert(writer@ =~= w0 + written_bytes(secs));
        if em {
            assert forall|i: int| 0 <= i < ops@.len() implies op_emittable(op_model(#[trigger] ops@[i])) by {
                assert(models(ops@)[i] == op_model(ops@[i]));
            }
        }
    }
    while k < n
        invariant
            n == sections@.len() >= 1,
            k <= n,
            secs.len() == k,
            win_data@.len() == 0,
            seg_size == clamp_section_size(max_section_size),
            sec_comp_buildable(*sec_comp),
            rt == all_roundtrip(ops@),
            em == all_emittable(models(ops@)),
            em ==> forall|i: int| 0 <= i < ops@.len() ==> op_emittable(op_model(#[trigger] ops@[i])),
            sections_ops(sections@) == ops@,
            forall|i: int| 0 <= i < ops@.len() ==> crate::writer::op_writable(op_model(#[trigger] ops@[i])),
            forall|j: int| 0 <= j < sections@.len() ==> (#[trigger] sections@[j]).1 == section_header_for(models(sections@[j].0@), j < sections@.len() - 1),
            forall|j: int| 0 <= j < sections@.len() ==> ops_oal_sum(models((#[trigger] sections@[j]).0@)) <= seg_size,
            writer@ == w0 + written_bytes(secs),
            written_ops(secs) == models(sections_ops(sections@.subrange(0, k as int))),
            rt ==> forall|j: int| 0 <= j < k ==> #[trigger] section_encoded(secs, j, n as int, *sec_comp, format, seg_size),
        decreases n - k,
    {
        let (seg_ops, header0) = sections[k];
        let header = SectionHeader { format, ..header0 };
        proof {
            assert forall|j: int| 0 <= j < seg_ops@.len() implies crate::writer::op_writable(op_model(#[trigger] seg_ops@[j])) by {
                lemma_sections_contain(sections@, k as int, j);
                let i = choose|i: int| 0 <= i < ops@.len() && ops@[i] == seg_ops@[j];
                assert(crate::writer::op_writable(op_model(ops@[i])));
            }
            lemma_header_adds(sections@, k as int);
            if em {
                lemma_section_fits(sections@, ops@, k as int, format, max_section_size);
                assert(MAX_WIN_SIZE * 14 < usize::MAX / 2);
            }
        }
        let ghost wb = writer@;
        let ghost buf0 = win_data@;
        match section_writer(sec_comp, header, writer, seg_ops, &mut win_data) {
            Ok(()) => {},
            Err(e) => {
                proof {
                    if e == SmdiffError::Compression {
                        let ms = models(seg_ops@);
                        assert(section_data(*sec_comp, buf0, ms, format) =~= ops_bytes(ms, format));
                        lemma_section_slice(sections@, k as int);
                        let a = sections_ops(sections@.subrange(0, k as int)).len() as int;
                        let b = a + seg_ops@.len();
                        assert(ops@.subrange(a, b) == seg_ops@);
                        assert(models(ops@).subrange(a, b) =~= ms);
                        assert(compression_fails(*sec_comp, ops_bytes(models(ops@).subrange(a, b), format)));
                    }
                }
                return Err(e);
            },
        }
        proof {
            let ms = models(seg_ops@);
            let data = ops_bytes(ms, format);
            assert(section_data(*sec_comp, Seq::empty(), ms, format) =~= data);
            let pl = choose|pl: Seq<u8>| writer@ == wb + (header_bytes(header_with(*sec_comp, header)) + pl) && #[trigger] payload_for(*sec_comp, data, pl);
            let x = (header_with(*sec_comp, header), ms, pl);
            lemma_written_push(secs, x);
            let old_secs = secs;
            secs = secs.push(x);
            assert(writer@ =~= w0 + written_bytes(secs));
            if rt {
                assert forall|j: int| 0 <= j < ms.len() implies crate::reader::op_roundtrips(#[trigger] ms[j]) by {
                    lemma_sections_contain(sections@, k as int, j);
                    let i = choose|i: int| 0 <= i < ops@.len() && ops@[i] == seg_ops@[j];
                    assert(crate::reader::op_roundtrips(op_model(ops@[i])));
                }
                assert(section_encoded(secs, k as int, n as int, *sec_comp, format, seg_size));
                assert forall|j: int| 0 <= j < k + 1 implies #[trigger] section_encoded(secs, j, n as int, *sec_comp, format, seg_size) by {
                    if j < k {
                        assert(secs[j] == old_secs[j]);
                        assert(section_encoded(old_secs, j, n as int, *sec_comp, format, seg_size));
                    }
                }
            }
            let sub = sections@.subrange(0, k + 1);
            assert(sub.drop_last() =~= sections@.subrange(0, k as int));
            lemma_models_concat(sections_ops(sections@.subrange(0, k as int)), seg_ops@);
        }
        k = k + 1;
    }
    proof {
        assert(sections@.subrange(0, n as int) =~= sections@);
        if rt {
            assert forall|j: int| 0 <= j < secs.len() implies ({
                &&& header_fits((#[trigger] secs[j]).0, secs[j].1)
                &&& secs[j].0.more_sections == (j < secs.len() - 1)
                &&& secs[j].0.format == format
                &&& secs[j].0.compression_algo == (match *sec_comp { None => 0u8, Some(c) => algo_value_spec(c) })
                &&& secs[j].0.output_size <= seg_size
                &&& payload_for(*sec_comp, ops_bytes(secs[j].1, format), secs[j].2)
            }) by {
                assert(section_encoded(secs, j, n as int, *sec_comp, format, seg_size));
            }
            assert(encoded_as(written_bytes(secs), secs, *sec_comp, format, seg_size));
        }
    }
    Ok(())
}

/// A header `make_sections` gives counts no more Add bytes than output bytes.
proof fn lemma_header_adds<'a, A: AddOp>(sections: Seq<(&'a [Op<A>], SectionHeader)>, k: int)
    requires
        0 <= k < sections.len(),
        sections[k].1 == section_header_for(models(sections[k].0@), k < sections.len() - 1),
        ops_oal_sum(models(sections[k].0@)) <= MAX_WIN_SIZE,
    ensures
        sections[k].1.num_add_bytes <= sections[k].1.output_size,
{
    lemma_sums_bound(models(sections[k].0@));
}

/// Encodes a delta file based on the given configuration and inputs.
/// * `dict` - The source file to use as a dictionary. If None, the source file will not be used.
/// * `output` - The target file to encode.
/// * `config` - The configuration to use for the encoder.
///
/// The patch is made of sections of at most the configured segment size (clamped to
/// MAX_INST_SIZE..=MAX_WIN_SIZE) whose operations rebuild `output` from `dict`; without
/// secondary compression or with nested SMDIFF patches, decoding it gives `output` back.
/// Every operation written produces 1 to MAX_INST_SIZE bytes (a Run at most MAX_RUN_LEN).
/// Fails only where zstd or brotli refuse a section.
pub fn encode(dict: Option<&[u8]>, output: &[u8], config: &EncoderConfig) -> (r: Result<Vec<u8>, SmdiffError>)
    requires
        config.buildable(),
        output@.len() < usize::MAX / 2,
    ensures
        r matches Ok(bytes) ==> exists|secs: Seq<(SectionHeader, Seq<OpModel>, Seq<u8>)>| {
            &&& #[trigger] encoded_as(bytes@, secs, config.sec_comp, config.format, clamp_section_size(config.output_segment_size))
            &&& apply_ops_spec(Seq::empty(), src_view(dict), written_ops(secs)) == Ok::<Seq<u8>, SmdiffError>(output@)
            &&& forall|i: int| 0 <= i < written_ops(secs).len() ==> op_emittable(#[trigger] written_ops(secs)[i])
        },
        r matches Ok(bytes) ==> exists|secs: Seq<(SectionHeader, Seq<OpModel>, Seq<u8>)>, found: Seq<InnerOp>| {
            &&& #[trigger] encoded_as(bytes@, secs, config.sec_comp, config.format, clamp_section_size(config.output_segment_size))
            &&& #[trigger] inner_result(config.inner(), dict_bytes(src_view(dict)), output@, found)
            &&& written_ops(secs) == translate_from(resolve_spec(found, 0, 1), output@, 0, 0)
        },
        (config.sec_comp is None || config.sec_comp matches Some(SecondaryCompression::Smdiff(_))) ==> {
            &&& r is Ok
            &&& decode_patch_spec(r->Ok_0@, 0, src_view(dict), Seq::empty()) == Ok::<Seq<u8>, SmdiffError>(output@)
        },
        r is Err ==> r == Err::<Vec<u8>, SmdiffError>(SmdiffError::Compression)
            && exists|found: Seq<InnerOp>, a: int, b: int| {
                &&& #[trigger] inner_result(config.inner(), dict_bytes(src_view(dict)), output@, found)
                &&& 0 <= a <= b <= translate_from(resolve_spec(found, 0, 1), output@, 0, 0).len()
                &&& #[trigger] compression_fails(config.sec_comp,
                    ops_bytes(translate_from(resolve_spec(found, 0, 1), output@, 0, 0).subrange(a, b), config.format))
            },
{
    let mut inner = GenericEncoderConfig {
        match_trgt: config.match_trgt,
        match_src: config.match_src,
        lazy_escape_len: config.lazy_escape_len,
        naive_tests: config.naive_tests,
    };
    let ops = find_ops(dict, output, &mut inner);
    let mut writer: Vec<u8> = Vec::new();
    proof {
        assert forall|i: int| 0 <= i < ops@.len() implies crate::writer::op_writable(op_model(#[trigger] ops@[i])) by {
            assert(op_emittable(op_model(ops@[i])));
        }
        assert(all_emittable(models(ops@)));
        assert(all_roundtrip(ops@));
    }
    match write_sections(ops.as_slice(), config.output_segment_size, config.format, &config.sec_comp, &mut writer) {
        Ok(()) => {},
        Err(e) => {
            proof {
                let found = choose|found: Seq<InnerOp>| #[trigger] inner_result(config.inner(), dict_bytes(src_view(dict)), output@, found)
                    && models(ops@) == translate_from(resolve_spec(found, 0, 1), output@, 0, 0);
                let (a, b) = choose|a: int, b: int| 0 <= a <= b <= ops@.len()
                    && #[trigger] compression_fails(config.sec_comp, ops_bytes(models(ops@).subrange(a, b), config.format));
                assert(inner_result(config.inner(), dict_bytes(src_view(dict)), output@, found));
                assert(compression_fails(config.sec_comp,
                    ops_bytes(translate_from(resolve_spec(found, 0, 1), output@, 0, 0).subrange(a, b), config.format)));
            }
            return Err(e);
        },
    }
    proof {
        let secs = choose|secs: Seq<(SectionHeader, Seq<OpModel>, Seq<u8>)>| {
            &&& writer@ == Seq::<u8>::empty() + written_bytes(secs)
            &&& #[trigger] encoded_as(written_bytes(secs), secs, config.sec_comp, config.format, clamp_section_size(config.output_segment_size))
            &&& written_ops(secs) == models(ops@)
        };
        assert(writer@ =~= written_bytes(secs));
        let found = choose|found: Seq<InnerOp>| #[trigger] inner_result(config.inner(), dict_bytes(src_view(dict)), output@, found)
            && models(ops@) == translate_from(resolve_spec(found, 0, 1), output@, 0, 0);
        assert(encoded_as(writer@, secs, config.sec_comp, config.format, clamp_section_size(config.output_segment_size)));
        assert(inner_result(config.inner(), dict_bytes(src_view(dict)), output@, found));
        assert forall|i: int| 0 <= i < written_ops(secs).len() implies op_emittable(#[trigger] written_ops(secs)[i]) by {
            assert(models(ops@)[i] == op_model(ops@[i]));
        }
        if config.sec_comp is None || config.sec_comp matches Some(SecondaryCompression::Smdiff(_)) {
            lemma_encoded_decodes(writer@, secs, config.sec_comp, config.format, clamp_section_size(config.output_segment_size), src_view(dict));
        }
    }
    Ok(writer)
}

} // verus!
