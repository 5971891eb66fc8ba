//! Applies SMDIFF patches: operations are replayed against an optional source
//! (the dictionary) to rebuild the target. Sections may carry a secondary
//! compression (a nested SMDIFF patch, zstd or brotli), undone here.
use vstd::prelude::*;
use crate::common::{models, op_model, push_slice, Add, CopySrc, Op, OpModel, SectionHeader, SmdiffError};
use crate::reader::{
    lemma_read_header_bounds, lemma_read_ops_no_comp_bounds, lemma_read_section_bounds, read_ops_no_comp,
    read_ops_no_comp_spec, read_section, read_section_header, read_section_header_spec, read_section_spec,
    slice_to_vec,
};
use crate::reader::{
    lemma_add_sums, lemma_body_roundtrip, lemma_read_header_roundtrip, lemma_section_roundtrip, lemma_sums_bound,
    op_roundtrips,
};
use crate::writer::{header_bytes, ops_add_bytes, ops_add_oal_sum, ops_bytes, ops_oal_sum};

verus! {

/// The source (dictionary) bytes, if any.
pub open spec fn src_view(src: Option<&[u8]>) -> Option<Seq<u8>> {
    match src {
        Some(s) => Some(s@),
        None => None,
    }
}

/// `out` after one more operation: an Add appends its bytes, a Run its byte `len` times,
/// a Copy a range of the dictionary or of the output written so far (which must hold it).
pub open spec fn apply_op_spec(out: Seq<u8>, src: Option<Seq<u8>>, op: OpModel) -> Result<Seq<u8>, SmdiffError> {
    match op {
        OpModel::Add(b) => Ok(out + b),
        OpModel::Run(r) => Ok(out + Seq::new(r.len as nat, |i: int| r.byte)),
        OpModel::Copy(c) => match c.src {
            CopySrc::Dict => match src {
                None => Err(SmdiffError::MissingSource),
                Some(s) => if c.addr + c.len <= s.len() {
                    Ok(out + s.subrange(c.addr as int, c.addr + c.len))
                } else {
                    Err(SmdiffError::UnexpectedEof)
                },
            },
            CopySrc::Output => if c.addr + c.len <= out.len() {
                Ok(out + out.subrange(c.addr as int, c.addr + c.len))
            } else {
                Err(SmdiffError::UnexpectedEof)
            },
        },
    }
}

/// `out` after the operations, in order; the first failing operation decides the error.
pub open spec fn apply_ops_spec(out: Seq<u8>, src: Option<Seq<u8>>, ops: Seq<OpModel>) -> Result<Seq<u8>, SmdiffError>
    decreases ops.len(),
{
    if ops.len() == 0 {
        Ok(out)
    } else {
        match apply_ops_spec(out, src, ops.drop_last()) {
            Err(e) => Err(e),
            Ok(o) => apply_op_spec(o, src, ops.last()),
        }
    }
}

proof fn lemma_apply_ops_err(out: Seq<u8>, src: Option<Seq<u8>>, ops: Seq<OpModel>, j: nat)
    requires
        j <= ops.len(),
        apply_ops_spec(out, src, ops.subrange(0, j as int)) is Err,
    ensures
        apply_ops_spec(out, src, ops) == apply_ops_spec(out, src, ops.subrange(0, j as int)),
    decreases ops.len() - j,
{
    if j < ops.len() {
        assert(ops.drop_last().subrange(0, j as int) =~= ops.subrange(0, j as int));
        lemma_apply_ops_err(out, src, ops.drop_last(), j);
    } else {
        assert(ops.subrange(0, j as int) =~= ops);
    }
}

/// Appends `n` copies of `byte`.
fn push_run(out: &mut Vec<u8>, byte: u8, n: usize)
    ensures
        final(out)@ == old(out)@ + Seq::new(n as nat, |i: int| byte),
{
    let mut i: usize = 0;
    while i < n
        invariant
            i <= n,
            out@ == old(out)@ + Seq::new(i as nat, |k: int| byte),
        decreases n - i,
    {
        out.push(byte);
        i = i + 1;
        assert(out@ =~= old(out)@ + Seq::new(i as nat, |k: int| byte));
    }
}

/// Applies one operation to the output.
fn apply_op(op: &Op<Add>, src: Option<&[u8]>, out: &mut Vec<u8>) -> (r: Result<(), SmdiffError>)
    ensures
        match apply_op_spec(old(out)@, src_view(src), op_model(*op)) {
            Ok(o) => r is Ok && final(out)@ == o,
            Err(e) => r == Err::<(), SmdiffError>(e),
        },
{
    match op {
        Op::Add(add) => {
            push_slice(out, add.bytes.as_slice());
            Ok(())
        },
        Op::Run(run) => {
            push_run(out, run.byte, run.len as usize);
            Ok(())
        },
        Op::Copy(copy) => {
            let len = copy.len as u64;
            match copy.src {
                CopySrc::Dict => {
                    let s = match src {
                        Some(s) => s,
                        None => return Err(SmdiffError::MissingSource),
                    };
                    if copy.addr > s.len() as u64 || len > s.len() as u64 - copy.addr {
                        return Err(SmdiffError::UnexpectedEof);
                    }
                    let start = copy.addr as usize;
                    let end = start + copy.len as usize;
                    push_slice(out, &s[start..end]);
                    Ok(())
                },
                CopySrc::Output => {
                    if copy.addr > out.len() as u64 || len > out.len() as u64 - copy.addr {
                        return Err(SmdiffError::UnexpectedEof);
                    }
                    let start = copy.addr as usize;
                    let end = start + copy.len as usize;
                    let piece = slice_to_vec(out.as_slice(), start, end);
                    push_slice(out, piece.as_slice());
                    Ok(())
                },
            }
        },
    }
}

/// Applies a series of operations to the output, in order.
fn apply_ops(ops: &[Op<Add>], src: Option<&[u8]>, out: &mut Vec<u8>) -> (r: Result<(), SmdiffError>)
    ensures
        match apply_ops_spec(old(out)@, src_view(src), models(ops@)) {
            Ok(o) => r is Ok && final(out)@ == o,
            Err(e) => r == Err::<(), SmdiffError>(e),
        },
{
    let ghost o0 = out@;
    let ghost ms = models(ops@);
    let mut i: usize = 0;
    while i < ops.len()
        invariant
            i <= ops@.len(),
            ms == models(ops@),
            o0 == old(out)@,
            apply_ops_spec(o0, src_view(src), ms.subrange(0, i as int)) == Ok::<Seq<u8>, SmdiffError>(out@),
        decreases ops@.len() - i,
    {
        proof {
            assert(ms.subrange(0, i + 1).drop_last() =~= ms.subrange(0, i as int));
        }
        let ghost before = out@;
        match apply_op(&ops[i], src, out) {
            Ok(()) => {},
            Err(e) => {
                proof {
                    assert(ms[i as int] == op_model(ops@[i as int]));
                    assert(apply_ops_spec(o0, src_view(src), ms.subrange(0, i + 1)) == apply_op_spec(before, src_view(src), ms[i as int]));
                    lemma_apply_ops_err(o0, src_view(src), ms, (i + 1) as nat);
                    assert(apply_op_spec(before, src_view(src), ms[i as int]) == Err::<Seq<u8>, SmdiffError>(e));
                    assert(apply_ops_spec(o0, src_view(src), ms) == Err::<Seq<u8>, SmdiffError>(e));
                }
                return Err(e);
            },
        }
        i = i + 1;
    }
    proof {
        assert(ms.subrange(0, ops@.len() as int) =~= ms);
    }
    Ok(())
}

/// Decodes a patch without secondary compression, read from `p` on, on top of `out`:
/// the output and the position after the terminal section.
pub open spec fn plain_patch_spec(s: Seq<u8>, p: int, src: Option<Seq<u8>>, out: Seq<u8>) -> Result<(Seq<u8>, int), SmdiffError>
    decreases s.len() - p,
{
    match read_section_spec(s, p) {
        Err(e) => Err(e),
        Ok((h, ops, q)) => match apply_ops_spec(out, src, ops) {
            Err(e) => Err(e),
            Ok(o) => if !h.more_sections {
                Ok((o, q))
            } else {
                proof {
                    lemma_read_section_bounds(s, p);
                }
                plain_patch_spec(s, q, src, o)
            },
        },
    }
}

/// Decodes a patch that has no secondary compression, from `*pos` on, appending to `sink`.
/// `*pos` ends after the terminal section.
fn apply_no_sec_comp(patch: &[u8], pos: &mut usize, src: Option<&[u8]>, sink: &mut Vec<u8>) -> (r: Result<(), SmdiffError>)
    ensures
        match plain_patch_spec(patch@, *old(pos) as int, src_view(src), old(sink)@) {
            Ok((o, q)) => r is Ok && final(sink)@ == o && *final(pos) as int == q,
            Err(e) => r == Err::<(), SmdiffError>(e),
        },
{
    let ghost s = patch@;
    let ghost sv = src_view(src);
    loop
        invariant
            s == patch@,
            sv == src_view(src),
            plain_patch_spec(s, *pos as int, sv, sink@) == plain_patch_spec(s, *old(pos) as int, sv, old(sink)@),
        decreases s.len() - *pos,
    {
        let ghost p0 = *pos as int;
        let mut ops: Vec<Op<Add>> = Vec::new();
        let header = read_section(patch, pos, &mut ops)?;
        proof {
            lemma_read_section_bounds(s, p0);
            assert(models(ops@) =~= models(Seq::<Op<Add>>::empty()) + models(ops@));
        }
        apply_ops(ops.as_slice(), src, sink)?;
        if !header.more_sections {
            return Ok(());
        }
    }
}

/// What the zstd decoder gives for the frame at the start of `input`: the decompressed
/// bytes and how many input bytes follow the frame; None where the frame is malformed.
pub uninterp spec fn zstd_frame_decoded(input: Seq<u8>) -> Option<(Seq<u8>, nat)>;

/// What the brotli decoder gives for the stream at the start of `input`: the decompressed
/// bytes and how many input bytes follow the stream; None where the stream is malformed
/// or incomplete.
pub uninterp spec fn brotli_stream_decoded(input: Seq<u8>) -> Option<(Seq<u8>, nat)>;

/// Decodes the zstd frame at the start of `input` with `ruzstd::decoding::StreamingDecoder`
/// (reading it to its end) and returns the decompressed bytes with the number of input
/// bytes left after the frame. Trusted: the result is named, and the decoder only advances
/// through its input slice, so what is left is no longer than the input.
#[verifier::external_body]
fn zstd_decode_frame(input: &[u8]) -> (r: Option<(Vec<u8>, usize)>)
    ensures
        match r {
            Some((out, rest)) => zstd_frame_decoded(input@) == Some((out@, rest as nat)) && rest <= input.len(),
            None => zstd_frame_decoded(input@) is None,
        },
{
    let mut source = input;
    let mut decoder = ruzstd::decoding::StreamingDecoder::new(&mut source).ok()?;
    let mut out = Vec::new();
    std::io::Read::read_to_end(&mut decoder, &mut out).ok()?;
    drop(decoder);
    Some((out, source.len()))
}

/// Decodes the brotli stream at the start of `input` with `brotlic::DecompressorReader`
/// (reading it to its end; `into_inner` fails unless the stream finished) and returns the
/// decompressed bytes with the number of input bytes left after the stream. Trusted: the
/// result is named, and the reader only consumes its input slice, so what is left is no
/// longer than the input.
#[verifier::external_body]
fn brotli_decode_stream(input: &[u8]) -> (r: Option<(Vec<u8>, usize)>)
    ensures
        match r {
            Some((out, rest)) => brotli_stream_decoded(input@) == Some((out@, rest as nat)) && rest <= input.len(),
            None => brotli_stream_decoded(input@) is None,
        },
{
    let mut decoder = brotlic::DecompressorReader::new(input);
    let mut out = Vec::new();
    std::io::Read::read_to_end(&mut decoder, &mut out).ok()?;
    let rest = decoder.into_inner().ok()?;
    Some((out, rest.len()))
}

/// The operations of a section body whose header is `h`, read at `p` with the secondary
/// compression undone (0: none, 1: nested SMDIFF patch, 2: zstd, 4: brotli), and the
/// position after the body. Value 3 (lzma2_xz) names a compression this decoder does not
/// have: the section is refused. The unassigned values 5 to 7 name no compression, and the
/// body is read as plain operations.
pub open spec fn section_body_spec(s: Seq<u8>, p: int, h: SectionHeader) -> Result<(Seq<OpModel>, int), SmdiffError> {
    if h.compression_algo == 1 {
        match plain_patch_spec(s, p, None, Seq::empty()) {
            Err(e) => Err(e),
            Ok((win, q)) => match read_ops_no_comp_spec(win, 0, h) {
                Err(e) => Err(e),
                Ok((ops, _)) => Ok((ops, q)),
            },
        }
    } else if h.compression_algo == 2 || h.compression_algo == 4 {
        let dec = if h.compression_algo == 2 {
            zstd_frame_decoded(s.subrange(p, s.len() as int))
        } else {
            brotli_stream_decoded(s.subrange(p, s.len() as int))
        };
        match dec {
            None => Err(SmdiffError::Compression),
            Some((win, rest)) => if rest < s.len() - p {
                match read_ops_no_comp_spec(win, 0, h) {
                    Err(e) => Err(e),
                    Ok((ops, _)) => Ok((ops, s.len() - rest)),
                }
            } else {
                Err(SmdiffError::Compression)
            },
        }
    } else if h.compression_algo == 3 {
        Err(SmdiffError::Compression)
    } else {
        read_ops_no_comp_spec(s, p, h)
    }
}

/// A whole section read at `p`, secondary compression undone: (header, operations,
/// position after the section). The header's `num_add_bytes` counts the Add bytes found.
pub open spec fn decoded_section_spec(s: Seq<u8>, p: int) -> Result<(SectionHeader, Seq<OpModel>, int), SmdiffError> {
    match read_section_header_spec(s, p) {
        Err(e) => Err(e),
        Ok((h, p1)) => match section_body_spec(s, p1, h) {
            Err(e) => Err(e),
            Ok((ops, q)) => Ok((SectionHeader { num_add_bytes: ops_add_oal_sum(ops) as u32, ..h }, ops, q)),
        },
    }
}

proof fn lemma_plain_patch_bounds(s: Seq<u8>, p: int, src: Option<Seq<u8>>, out: Seq<u8>)
    ensures
        plain_patch_spec(s, p, src, out) matches Ok((o, q)) ==> 0 <= p < q <= s.len(),
    decreases s.len() - p,
{
    lemma_read_section_bounds(s, p);
    if let Ok((h, ops, q)) = read_section_spec(s, p) {
        if let Ok(o) = apply_ops_spec(out, src, ops) {
            if h.more_sections {
                lemma_plain_patch_bounds(s, q, src, o);
            }
        }
    }
}

/// Reading a section consumes at least one byte and stays inside the patch.
pub proof fn lemma_decoded_section_bounds(s: Seq<u8>, p: int)
    ensures
        decoded_section_spec(s, p) matches Ok((h, ops, q)) ==> 0 <= p < q <= s.len(),
{
    lemma_read_header_bounds(s, p);
    if let Ok((h, p1)) = read_section_header_spec(s, p) {
        lemma_plain_patch_bounds(s, p1, None, Seq::empty());
        lemma_read_ops_no_comp_bounds(s, p1, h);
    }
}

/// Reads the body of a section whose header is `*header`, from `*pos` on, undoing its
/// secondary compression; the operations are appended to `ops` and `header.num_add_bytes`
/// is set to the number of Add bytes found.
fn read_section_body(source: &[u8], pos: &mut usize, header: &mut SectionHeader, ops: &mut Vec<Op<Add>>) -> (r: Result<(), SmdiffError>)
    requires
        *old(pos) <= source@.len(),
    ensures
        match section_body_spec(source@, *old(pos) as int, *old(header)) {
            Ok((new_ops, q)) => {
                &&& r is Ok
                &&& *final(pos) as int == q
                &&& models(final(ops)@) == models(old(ops)@) + new_ops
                &&& *final(header) == (SectionHeader { num_add_bytes: ops_add_oal_sum(new_ops) as u32, ..*old(header) })
            },
            Err(e) => r == Err::<(), SmdiffError>(e),
        },
{
    let ghost s = source@;
    let ghost p1 = *pos as int;
    if header.compression_algo == 1 {
        let mut win_data: Vec<u8> = Vec::new();
        apply_no_sec_comp(source, pos, None, &mut win_data)?;
        let mut wpos: usize = 0;
        read_ops_no_comp(win_data.as_slice(), &mut wpos, header, ops)
    } else if header.compression_algo == 2 || header.compression_algo == 4 {
        let len = source.len();
        let rest_input = &source[*pos..len];
        proof {
            assert(rest_input@ == s.subrange(p1, s.len() as int));
        }
        let dec = if header.compression_algo == 2 {
            zstd_decode_frame(rest_input)
        } else {
            brotli_decode_stream(rest_input)
        };
        let (win_data, rest) = match dec {
            Some(v) => v,
            None => return Err(SmdiffError::Compression),
        };
        if rest >= rest_input.len() {
            return Err(SmdiffError::Compression);
        }
        let mut wpos: usize = 0;
        read_ops_no_comp(win_data.as_slice(), &mut wpos, header, ops)?;
        *pos = len - rest;
        Ok(())
    } else if header.compression_algo == 3 {
        Err(SmdiffError::Compression)
    } else {
        read_ops_no_comp(source, pos, header, ops)
    }
}

/// Reads the sections of a patch whose sections may carry secondary compression.
pub struct SectionReader {
    source: Vec<u8>,
    pos: usize,
    done: bool,
    ops: Vec<Op<Add>>,
}

impl SectionReader {
    /// The patch bytes.
    pub closed spec fn source_spec(&self) -> Seq<u8> {
        self.source@
    }

    /// Where the next section starts.
    pub closed spec fn pos_spec(&self) -> int {
        self.pos as int
    }

    /// True once the terminal section has been read.
    pub closed spec fn done_spec(&self) -> bool {
        self.done
    }

    pub fn new(patch: Vec<u8>) -> (r: Self)
        ensures
            r.source_spec() == patch@,
            r.pos_spec() == 0,
            !r.done_spec(),
    {
        SectionReader { source: patch, pos: 0, done: false, ops: Vec::new() }
    }

    /// Reads the next section, undoing its secondary compression; None once the terminal
    /// section has been read.
    pub fn next(&mut self) -> (r: Option<Result<(&[Op<Add>], SectionHeader), SmdiffError>>)
        ensures
            final(self).source_spec() == old(self).source_spec(),
            old(self).done_spec() ==> r is None && final(self).pos_spec() == old(self).pos_spec() && final(self).done_spec(),
            !old(self).done_spec() ==> match decoded_section_spec(old(self).source_spec(), old(self).pos_spec()) {
                Ok((h, ops, p)) => r matches Some(Ok((sl, hh))) && hh == h && models(sl@) == ops
                    && final(self).pos_spec() == p && final(self).done_spec() == !h.more_sections,
                Err(e) => r == Some(Err::<(&[Op<Add>], SectionHeader), SmdiffError>(e)) && !final(self).done_spec(),
            },
    {
        if self.done {
            return None;
        }
        self.ops.clear();
        let mut pos = self.pos;
        let mut header = match read_section_header(self.source.as_slice(), &mut pos) {
            Ok(h) => h,
            Err(e) => return Some(Err(e)),
        };
        proof {
            lemma_read_header_bounds(self.source@, self.pos as int);
        }
        if let Err(e) = read_section_body(self.source.as_slice(), &mut pos, &mut header, &mut self.ops) {
            return Some(Err(e));
        }
        self.pos = pos;
        proof {
            assert(models(self.ops@) =~= models(Seq::<Op<Add>>::empty()) + models(self.ops@));
        }
        if !header.more_sections {
            self.done = true;
        }
        Some(Ok((self.ops.as_slice(), header)))
    }

    pub fn into_inner(self) -> (r: Vec<u8>)
        ensures
            r@ == self.source_spec(),
    {
        self.source
    }
}

/// The target rebuilt from the patch read at `p` (sections with secondary compression
/// undone), on top of `out`.
pub open spec fn decode_patch_spec(s: Seq<u8>, p: int, src: Option<Seq<u8>>, out: Seq<u8>) -> Result<Seq<u8>, SmdiffError>
    decreases s.len() - p,
{
    match decoded_section_spec(s, p) {
        Err(e) => Err(e),
        Ok((h, ops, q)) => match apply_ops_spec(out, src, ops) {
            Err(e) => Err(e),
            Ok(o) => if !h.more_sections {
                Ok(o)
            } else {
                proof {
                    lemma_decoded_section_bounds(s, p);
                }
                decode_patch_spec(s, q, src, o)
            },
        },
    }
}

/// Applies an SMDIFF patch to an optional source (dictionary) and returns the target.
/// Sections are read one after the other until the terminal section; each one's
/// operations are applied in order.
pub fn apply_patch(patch: &[u8], src: Option<&[u8]>) -> (r: Result<Vec<u8>, SmdiffError>)
    ensures
        match decode_patch_spec(patch@, 0, src_view(src), Seq::empty()) {
            Ok(o) => r is Ok && r->Ok_0@ == o,
            Err(e) => r == Err::<Vec<u8>, SmdiffError>(e),
        },
{
    let mut sink: Vec<u8> = Vec::new();
    let mut reader = SectionReader::new(slice_to_vec(patch, 0, patch.len()));
    proof {
        assert(patch@.subrange(0, patch@.len() as int) =~= patch@);
    }
    let ghost s = patch@;
    let ghost sv = src_view(src);
    loop
        invariant
            s == patch@,
            sv == src_view(src),
            reader.source_spec() == s,
            !reader.done_spec(),
            0 <= reader.pos_spec() <= s.len(),
            decode_patch_spec(s, reader.pos_spec(), sv, sink@) == decode_patch_spec(s, 0, sv, Seq::empty()),
        decreases s.len() - reader.pos_spec(),
    {
        let ghost p0 = reader.pos_spec();
        proof {
            lemma_decoded_section_bounds(s, p0);
        }
        let (ops, header) = match reader.next() {
            Some(Ok(v)) => v,
            Some(Err(e)) => return Err(e),
            None => return Err(SmdiffError::InvalidData),
        };
        apply_ops(ops, src, &mut sink)?;
        if !header.more_sections {
            return Ok(sink);
        }
    }
}

/// Applying `a + b` is applying `a`, then `b` on its result.
pub proof fn lemma_apply_concat(out: Seq<u8>, src: Option<Seq<u8>>, a: Seq<OpModel>, b: Seq<OpModel>)
    ensures
        apply_ops_spec(out, src, a + b) == match apply_ops_spec(out, src, a) {
            Err(e) => Err(e),
            Ok(o) => apply_ops_spec(o, src, b),
        },
    decreases b.len(),
{
    if b.len() == 0 {
        assert(a + b =~= a);
    } else {
        lemma_apply_concat(out, src, a, b.drop_last());
        assert((a + b).drop_last() =~= a + b.drop_last());
    }
}


// ---------------------------------------------------------------------------
// Decoding what was written
// ---------------------------------------------------------------------------
/// The bytes of sections written one after the other: each header, then what follows it
/// (the operations, or a nested patch of them).
pub open spec fn written_bytes(secs: Seq<(SectionHeader, Seq<OpModel>, Seq<u8>)>) -> Seq<u8>
    decreases secs.len(),
{
    if secs.len() == 0 {
        Seq::empty()
    } else {
        header_bytes(secs[0].0) + secs[0].2 + written_bytes(secs.drop_first())
    }
}

/// The operations of the sections, in order.
pub open spec fn written_ops(secs: Seq<(SectionHeader, Seq<OpModel>, Seq<u8>)>) -> Seq<OpModel>
    decreases secs.len(),
{
    if secs.len() == 0 {
        Seq::empty()
    } else {
        secs[0].1 + written_ops(secs.drop_first())
    }
}

/// The header says how many operations follow and how many bytes they produce (in the
/// segregated format also how many Add bytes follow them), and the operations round-trip.
pub open spec fn header_fits(h: SectionHeader, ops: Seq<OpModel>) -> bool {
    &&& h.compression_algo <= 7
    &&& h.num_operations == ops.len()
    &&& ops_oal_sum(ops) == h.output_size
    &&& h.format is Segregated ==> h.num_add_bytes == ops_add_bytes(ops).len()
    &&& forall|i: int| 0 <= i < ops.len() ==> op_roundtrips(#[trigger] ops[i])
}

/// `payload` is a patch without secondary compression that decodes, from nothing and
/// without a source, to `data`, wherever it stands inside a larger input.
pub open spec fn nested_patch_of(payload: Seq<u8>, data: Seq<u8>) -> bool {
    forall|s: Seq<u8>, p: int| 0 <= p && p + payload.len() <= s.len() && #[trigger] s.subrange(p, p + payload.len()) == payload
        ==> plain_patch_spec(s, p, None, Seq::empty()) == Ok::<(Seq<u8>, int), SmdiffError>((data, p + payload.len()))
}

/// A section written with a fitting header, terminal exactly when `last`, whose header is
/// followed by its operations (no secondary compression) or, where `nested` allows it, by a
/// nested patch of them (secondary compression 1).
pub open spec fn section_written(sec: (SectionHeader, Seq<OpModel>, Seq<u8>), last: bool, nested: bool) -> bool {
    &&& header_fits(sec.0, sec.1)
    &&& sec.0.more_sections == !last
    &&& ((sec.0.compression_algo == 0 && sec.2 == ops_bytes(sec.1, sec.0.format))
        || (nested && sec.0.compression_algo == 1 && nested_patch_of(sec.2, ops_bytes(sec.1, sec.0.format))))
}

/// At least one section, each written as `section_written` says, only the last terminal.
pub open spec fn sections_written(secs: Seq<(SectionHeader, Seq<OpModel>, Seq<u8>)>, nested: bool) -> bool {
    &&& secs.len() >= 1
    &&& forall|k: int| 0 <= k < secs.len() ==> section_written(#[trigger] secs[k], k == secs.len() - 1, nested)
}

proof fn lemma_split_at(s: Seq<u8>, p: int, a: Seq<u8>, b: Seq<u8>)
    requires
        0 <= p,
        p + a.len() + b.len() <= s.len(),
        s.subrange(p, p + a.len() + b.len()) == a + b,
    ensures
        s.subrange(p, p + a.len()) == a,
        s.subrange(p + a.len(), p + a.len() + b.len()) == b,
{
    assert(s.subrange(p, p + a.len()) =~= (a + b).subrange(0, a.len() as int));
    assert(s.subrange(p + a.len(), p + a.len() + b.len()) =~= (a + b).subrange(a.len() as int, (a.len() + b.len()) as int));
}

proof fn lemma_rest_written(secs: Seq<(SectionHeader, Seq<OpModel>, Seq<u8>)>, nested: bool)
    requires
        sections_written(secs, nested),
        secs.len() > 1,
    ensures
        sections_written(secs.drop_first(), nested),
{
    let rest = secs.drop_first();
    assert forall|k: int| 0 <= k < rest.len() implies section_written(#[trigger] rest[k], k == rest.len() - 1, nested) by {
        assert(rest[k] == secs[k + 1]);
        assert(section_written(secs[k + 1], k + 1 == secs.len() - 1, nested));
    }
}

/// Where a section iterator over `s` stands after `n` calls of `next_borrowed`, having
/// started at `p`: (position, whether the terminal section was read). A call reads the
/// section at the position and moves past it, and after the terminal section nothing moves;
/// a section that cannot be read leaves the iterator where it was.
pub open spec fn iter_from(s: Seq<u8>, p: int, n: nat) -> (int, bool)
    decreases n,
{
    if n == 0 {
        (p, false)
    } else {
        match crate::reader::read_section_spec(s, p) {
            Ok((h, _, q)) => if h.more_sections { iter_from(s, q, (n - 1) as nat) } else { (q, true) },
            Err(_) => (p, false),
        }
    }
}

/// Reading back sections written without secondary compression: the section iterator's
/// `i`-th call reads section `i` (its header as written, with the Add bytes counted, and its
/// operations), and once all of them were read it is done, so that every later call gives
/// nothing.
pub proof fn lemma_iterate_written(s: Seq<u8>, p: int, secs: Seq<(SectionHeader, Seq<OpModel>, Seq<u8>)>)
    requires
        sections_written(secs, false),
        0 <= p,
        p + written_bytes(secs).len() <= s.len(),
        s.subrange(p, p + written_bytes(secs).len()) == written_bytes(secs),
    ensures
        forall|i: nat| i < secs.len() ==> {
            &&& !(#[trigger] iter_from(s, p, i)).1
            &&& crate::reader::read_section_spec(s, iter_from(s, p, i).0) matches Ok((h, ops, _))
            &&& ops == secs[i as int].1
            &&& h == SectionHeader { num_add_bytes: ops_add_bytes(secs[i as int].1).len() as u32, ..secs[i as int].0 }
        },
        iter_from(s, p, secs.len()).1,
    decreases secs.len(),
{
    let sec = secs[0];
    let h = sec.0;
    let ops = sec.1;
    let rest = secs.drop_first();
    let hb = header_bytes(h);
    let ob = ops_bytes(ops, h.format);
    let rb = written_bytes(rest);
    assert(section_written(sec, secs.len() == 1, false));
    assert(written_bytes(secs) =~= (hb + ob) + rb);
    lemma_split_at(s, p, hb + ob, rb);
    lemma_section_roundtrip(s, p, h, ops);
    let q = p + hb.len() + ob.len();
    assert(iter_from(s, p, 0) == (p, false));
    if secs.len() == 1 {
        assert(iter_from(s, p, 1) == (q, true));
        assert forall|i: nat| i < secs.len() implies {
            &&& !(#[trigger] iter_from(s, p, i)).1
            &&& crate::reader::read_section_spec(s, iter_from(s, p, i).0) matches Ok((hh, oo, _))
            &&& oo == secs[i as int].1
            &&& hh == SectionHeader { num_add_bytes: ops_add_bytes(secs[i as int].1).len() as u32, ..secs[i as int].0 }
        } by {
            assert(i == 0);
        }
    } else {
        lemma_rest_written(secs, false);
        lemma_iterate_written(s, q, rest);
        assert forall|i: nat| i < secs.len() implies {
            &&& !(#[trigger] iter_from(s, p, i)).1
            &&& crate::reader::read_section_spec(s, iter_from(s, p, i).0) matches Ok((hh, oo, _))
            &&& oo == secs[i as int].1
            &&& hh == SectionHeader { num_add_bytes: ops_add_bytes(secs[i as int].1).len() as u32, ..secs[i as int].0 }
        } by {
            if i > 0 {
                let j = (i - 1) as nat;
                assert(iter_from(s, p, i) == iter_from(s, q, j));
                assert(rest[j as int] == secs[i as int]);
                assert(!iter_from(s, q, j).1);
            }
        }
        assert(iter_from(s, p, secs.len()) == iter_from(s, q, rest.len()));
    }
}

/// Sections written without secondary compression decode to what their operations give,
/// and decoding ends right after them.
#[verifier::spinoff_prover]
#[verifier::rlimit(50)]
pub proof fn lemma_plain_sections(s: Seq<u8>, p: int, src: Option<Seq<u8>>, out: Seq<u8>, secs: Seq<(SectionHeader, Seq<OpModel>, Seq<u8>)>)
    requires
        sections_written(secs, false),
        0 <= p,
        p + written_bytes(secs).len() <= s.len(),
        s.subrange(p, p + written_bytes(secs).len()) == written_bytes(secs),
    ensures
        plain_patch_spec(s, p, src, out) == match apply_ops_spec(out, src, written_ops(secs)) {
            Err(e) => Err(e),
            Ok(o) => Ok::<(Seq<u8>, int), SmdiffError>((o, p + written_bytes(secs).len())),
        },
    decreases secs.len(),
{
    let sec = secs[0];
    let h = sec.0;
    let ops = sec.1;
    let rest = secs.drop_first();
    let hb = header_bytes(h);
    let ob = ops_bytes(ops, h.format);
    let rb = written_bytes(rest);
    assert(section_written(sec, secs.len() == 1, false));
    assert(written_bytes(secs) =~= (hb + ob) + rb);
    lemma_split_at(s, p, hb + ob, rb);
    lemma_section_roundtrip(s, p, h, ops);
    lemma_apply_concat(out, src, ops, written_ops(rest));
    let q = p + hb.len() + ob.len();
    if secs.len() == 1 {
        assert(written_ops(rest) =~= Seq::<OpModel>::empty());
        assert(ops + written_ops(rest) =~= ops);
    } else {
        lemma_rest_written(secs, false);
        if let Ok(o) = apply_ops_spec(out, src, ops) {
            lemma_plain_sections(s, q, src, o, rest);
        }
    }
}

/// Sections written as a patch without secondary compression make a nested patch of what
/// their operations give from nothing, without a source.
pub proof fn lemma_nested_patch(payload: Seq<u8>, data: Seq<u8>, secs: Seq<(SectionHeader, Seq<OpModel>, Seq<u8>)>)
    requires
        sections_written(secs, false),
        payload == written_bytes(secs),
        apply_ops_spec(Seq::empty(), None, written_ops(secs)) == Ok::<Seq<u8>, SmdiffError>(data),
    ensures
        nested_patch_of(payload, data),
{
    assert forall|s: Seq<u8>, p: int| 0 <= p && p + payload.len() <= s.len() && #[trigger] s.subrange(p, p + payload.len()) == payload
        implies plain_patch_spec(s, p, None, Seq::empty()) == Ok::<(Seq<u8>, int), SmdiffError>((data, p + payload.len())) by {
        lemma_plain_sections(s, p, None, Seq::empty(), secs);
    }
}

/// Written sections (plain, or with nested patches as secondary compression) decode to what
/// their operations give.
#[verifier::spinoff_prover]
#[verifier::rlimit(50)]
pub proof fn lemma_decode_sections(s: Seq<u8>, p: int, src: Option<Seq<u8>>, out: Seq<u8>, secs: Seq<(SectionHeader, Seq<OpModel>, Seq<u8>)>)
    requires
        sections_written(secs, true),
        0 <= p,
        p + written_bytes(secs).len() <= s.len(),
        s.subrange(p, p + written_bytes(secs).len()) == written_bytes(secs),
    ensures
        decode_patch_spec(s, p, src, out) == apply_ops_spec(out, src, written_ops(secs)),
    decreases secs.len(),
{
    let sec = secs[0];
    let h = sec.0;
    let ops = sec.1;
    let pl = sec.2;
    let rest = secs.drop_first();
    let hb = header_bytes(h);
    let ob = ops_bytes(ops, h.format);
    let rb = written_bytes(rest);
    assert(section_written(sec, secs.len() == 1, true));
    assert(written_bytes(secs) =~= (hb + pl) + rb);
    lemma_split_at(s, p, hb + pl, rb);
    lemma_split_at(s, p, hb, pl);
    lemma_add_sums(ops);
    lemma_sums_bound(ops);
    lemma_read_header_roundtrip(s, p, h);
    let hr = SectionHeader { num_add_bytes: if h.format is Segregated { h.num_add_bytes } else { 0 }, ..h };
    let p1 = p + hb.len();
    if h.compression_algo == 0 {
        lemma_body_roundtrip(s, p1, hr, ops);
    } else {
        assert(s.subrange(p1, p1 + pl.len()) == pl);
        assert(plain_patch_spec(s, p1, None, Seq::empty()) == Ok::<(Seq<u8>, int), SmdiffError>((ob, p1 + pl.len())));
        assert(ob.subrange(0, ob.len() as int) =~= ob);
        lemma_body_roundtrip(ob, 0, hr, ops);
    }
    lemma_apply_concat(out, src, ops, written_ops(rest));
    let q = p1 + pl.len();
    if secs.len() == 1 {
        assert(ops + written_ops(rest) =~= ops);
    } else {
        lemma_rest_written(secs, true);
        if let Ok(o) = apply_ops_spec(out, src, ops) {
            lemma_decode_sections(s, q, src, o, rest);
        }
    }
}

} // verus!
