//! Reads the underlying SMDIFF format (without secondary decompression).
//! The building blocks (header, operation, section) are exposed for other readers.
use vstd::prelude::*;
use crate::common::{
    diff_addresses_to_u64, op_model, models, read_i_varint, read_i_varint_spec, read_u16, read_u16_spec,
    read_u8, read_u8_spec, read_u_varint, read_u_varint_spec, size_routine, size_routine_spec, wrap_u64, Add,
    CopySrc, Format, Op, OpModel, Run, SectionHeader, Size, SmdiffError, ADD, COPY_D, COPY_O,
    OP_MASK, RUN, SECTION_COMPRESSION_MASK, SECTION_CONTINUE_BIT, SECTION_FORMAT_BIT, SIZE_MASK,
};
use crate::writer::{
    addrs_after, control_byte, header_bytes, next_addrs, op_addtl_bytes, op_head_bytes, op_writable,
    ops_add_bytes, ops_add_oal_sum, ops_body, ops_bytes, ops_oal_sum,
};
use crate::common::{
    i_varint_bytes, lemma_diff_addresses_roundtrip, lemma_i_varint_roundtrip, lemma_u16_roundtrip,
    lemma_u_varint_u64_roundtrip, op_flag, op_len, op_oal, u16_le_bytes, u_varint_bytes, u_varint_parse_at, wrap_i64,
};

verus! {

/// The header read at `p`, and the position after it.
pub open spec fn read_section_header_spec(s: Seq<u8>, p: int) -> Result<(SectionHeader, int), SmdiffError> {
    match read_u8_spec(s, p) {
        Err(e) => Err(e),
        Ok((b, p1)) => {
            let seg = (b & SECTION_FORMAT_BIT) == SECTION_FORMAT_BIT;
            match read_u_varint_spec(s, p1) {
                Err(e) => Err(e),
                Ok((nops, p2)) => {
                    let r_add = if seg {
                        read_u_varint_spec(s, p2)
                    } else {
                        Ok((0u64, p2))
                    };
                    match r_add {
                        Err(e) => Err(e),
                        Ok((nadd, p3)) => match read_u_varint_spec(s, p3) {
                            Err(e) => Err(e),
                            Ok((rsize, p4)) => {
                                let na = (nadd % 0x1_0000_0000) as u32;
                                let rs = (rsize % 0x1_0000_0000) as u32;
                                if seg && na + rs > u32::MAX {
                                    Err(SmdiffError::InvalidData)
                                } else {
                                    Ok(
                                        (
                                            SectionHeader {
                                                compression_algo: ((b & SECTION_COMPRESSION_MASK) >> 3u8) as u8,
                                                format: if seg {
                                                    Format::Segregated
                                                } else {
                                                    Format::Interleaved
                                                },
                                                more_sections: (b & SECTION_CONTINUE_BIT) == SECTION_CONTINUE_BIT,
                                                num_operations: (nops % 0x1_0000_0000) as u32,
                                                num_add_bytes: na,
                                                output_size: if seg {
                                                    (na + rs) as u32
                                                } else {
                                                    rs
                                                },
                                            },
                                            p4,
                                        ),
                                    )
                                }
                            },
                        },
                    }
                },
            }
        },
    }
}

/// Reads a section header from the reader at `*pos`.
pub fn read_section_header(reader: &[u8], pos: &mut usize) -> (r: Result<SectionHeader, SmdiffError>)
    ensures
        match read_section_header_spec(reader@, *old(pos) as int) {
            Ok((h, p)) => r == Ok::<SectionHeader, SmdiffError>(h) && *final(pos) as int == p,
            Err(e) => r == Err::<SectionHeader, SmdiffError>(e),
        },
{
    let header_byte = read_u8(reader, pos)?;
    let compression_algo = (header_byte & SECTION_COMPRESSION_MASK) >> 3u8;
    let seg = (header_byte & SECTION_FORMAT_BIT) == SECTION_FORMAT_BIT;
    let format = if seg {
        Format::Segregated
    } else {
        Format::Interleaved
    };
    let more_sections = (header_byte & SECTION_CONTINUE_BIT) == SECTION_CONTINUE_BIT;
    let nops = read_u_varint(reader, pos)?;
    let num_operations = (nops % 0x1_0000_0000) as u32;
    let num_add_bytes = if seg {
        let v = read_u_varint(reader, pos)?;
        (v % 0x1_0000_0000) as u32
    } else {
        0
    };
    let rsize = read_u_varint(reader, pos)?;
    let read_size = (rsize % 0x1_0000_0000) as u32;
    let output_size = if seg {
        if num_add_bytes as u64 + read_size as u64 > u32::MAX as u64 {
            return Err(SmdiffError::InvalidData);
        }
        num_add_bytes + read_size
    } else {
        read_size
    };
    Ok(SectionHeader { compression_algo, format, more_sections, num_operations, num_add_bytes, output_size })
}

#[derive(Copy, Clone, Debug, PartialEq, Eq, Structural)]
enum OpType {
    Copy { src: CopySrc },
    Add,
    Run,
}

struct OpByte {
    op: OpType,
    size: Size,
}

/// The (type, size) an op byte announces.
spec fn op_byte_spec(byte: u8) -> Result<(OpType, Size), SmdiffError> {
    let size = size_routine_spec((byte & SIZE_MASK) as u16);
    let ty = byte & OP_MASK;
    if ty == COPY_D {
        Ok((OpType::Copy { src: CopySrc::Dict }, size))
    } else if ty == COPY_O {
        Ok((OpType::Copy { src: CopySrc::Output }, size))
    } else if ty == ADD {
        Ok((OpType::Add, size))
    } else if ty == RUN {
        Ok((OpType::Run, size))
    } else {
        Err(SmdiffError::InvalidData)
    }
}

proof fn lemma_op_type(byte: u8)
    ensures
        op_byte_spec(byte) is Ok,
{
    assert((byte & 0xc0u8) == 0u8 || (byte & 0xc0u8) == 0x40u8 || (byte & 0xc0u8) == 0x80u8 || (byte & 0xc0u8) == 0xc0u8) by (bit_vector);
}

fn read_op_byte(reader: &[u8], pos: &mut usize) -> (r: Result<OpByte, SmdiffError>)
    ensures
        match read_u8_spec(reader@, *old(pos) as int) {
            Err(e) => r == Err::<OpByte, SmdiffError>(e),
            Ok((b, p)) => match op_byte_spec(b) {
                Err(e) => r == Err::<OpByte, SmdiffError>(e),
                Ok((t, sz)) => r matches Ok(ob) && ob.op == t && ob.size == sz && *final(pos) as int == p,
            },
        },
{
    let byte = read_u8(reader, pos)?;
    let size_indicator = byte & SIZE_MASK;
    let op_type = byte & OP_MASK;
    let size = size_routine(size_indicator as u16);
    if op_type == COPY_D {
        Ok(OpByte { op: OpType::Copy { src: CopySrc::Dict }, size })
    } else if op_type == COPY_O {
        Ok(OpByte { op: OpType::Copy { src: CopySrc::Output }, size })
    } else if op_type == ADD {
        Ok(OpByte { op: OpType::Add, size })
    } else if op_type == RUN {
        Ok(OpByte { op: OpType::Run, size })
    } else {
        Err(SmdiffError::InvalidData)
    }
}

/// The operation read at `p` given the last copy addresses (dict `d`, output `o`):
/// (operation, position after it, new dict address, new output address).
/// In the segregated format the Add bytes are not inline: the Add holds zeros.
#[verifier::opaque]
pub open spec fn read_op_spec(s: Seq<u8>, p: int, d: u64, o: u64, is_interleaved: bool) -> Result<(OpModel, int, u64, u64), SmdiffError> {
    match read_u8_spec(s, p) {
        Err(e) => Err(e),
        Ok((byte, p1)) => {
            let size = size_routine_spec((byte & SIZE_MASK) as u16);
            let ty = byte & OP_MASK;
            if ty == RUN && !(size is Done) {
                Err(SmdiffError::InvalidData)
            } else {
                let rsize: Result<(u16, int), SmdiffError> = match size {
                    Size::Done(x) => Ok((x as u16, p1)),
                    Size::U8And62 => match read_u8_spec(s, p1) {
                        Ok((v, q)) => Ok(((v + 62) as u16, q)),
                        Err(e) => Err(e),
                    },
                    Size::U16 => read_u16_spec(s, p1),
                };
                match rsize {
                    Err(e) => Err(e),
                    Ok((len, p2)) => if ty == COPY_D || ty == COPY_O {
                        match read_i_varint_spec(s, p2) {
                            Err(e) => Err(e),
                            Ok((delta, p3)) => if ty == COPY_D {
                                let a = wrap_u64(d + delta) as u64;
                                Ok((OpModel::Copy(crate::common::Copy { src: CopySrc::Dict, addr: a, len }), p3, a, o))
                            } else {
                                let a = wrap_u64(o + delta) as u64;
                                Ok((OpModel::Copy(crate::common::Copy { src: CopySrc::Output, addr: a, len }), p3, d, a))
                            },
                        }
                    } else if ty == ADD {
                        if is_interleaved {
                            if p2 + len <= s.len() {
                                Ok((OpModel::Add(s.subrange(p2, p2 + len)), p2 + len, d, o))
                            } else {
                                Err(SmdiffError::UnexpectedEof)
                            }
                        } else {
                            Ok((OpModel::Add(Seq::new(len as nat, |i: int| 0u8)), p2, d, o))
                        }
                    } else {
                        match read_u8_spec(s, p2) {
                            Err(e) => Err(e),
                            Ok((b, p3)) => Ok((OpModel::Run(Run { len: len as u8, byte: b }), p3, d, o)),
                        }
                    },
                }
            }
        },
    }
}

/// A Vec holding `n` zero bytes.
fn zeros(n: usize) -> (r: Vec<u8>)
    ensures
        r@ == Seq::new(n as nat, |i: int| 0u8),
{
    let mut v: Vec<u8> = Vec::new();
    let mut i: usize = 0;
    while i < n
        invariant
            i <= n,
            v@ == Seq::new(i as nat, |j: int| 0u8),
        decreases n - i,
    {
        v.push(0u8);
        i = i + 1;
        assert(v@ =~= Seq::new(i as nat, |j: int| 0u8));
    }
    v
}

/// A Vec holding `s[a..b]`.
pub fn slice_to_vec(s: &[u8], a: usize, b: usize) -> (r: Vec<u8>)
    requires
        a <= b <= s@.len(),
    ensures
        r@ == s@.subrange(a as int, b as int),
{
    let mut v: Vec<u8> = Vec::new();
    let mut i: usize = a;
    while i < b
        invariant
            a <= i <= b <= s@.len(),
            v@ == s@.subrange(a as int, i as int),
        decreases b - i,
    {
        v.push(s[i]);
        i = i + 1;
        assert(v@ =~= s@.subrange(a as int, i as int));
    }
    v
}

/// Reads an operation from the reader at `*pos`.
/// * `cur_d_addr` - The last used copy dictionary address.
/// * `cur_o_addr` - The last used copy output address.
/// * `is_interleaved` - If the format is interleaved.
///
/// If this is segregated format, the Add ops will just be initialized to all zeros in the bytes field.
pub fn read_op(reader: &[u8], pos: &mut usize, cur_d_addr: &mut u64, cur_o_addr: &mut u64, is_interleaved: bool) -> (r: Result<Op<Add>, SmdiffError>)
    ensures
        match read_op_spec(reader@, *old(pos) as int, *old(cur_d_addr), *old(cur_o_addr), is_interleaved) {
            Ok((op, p, d, o)) => r matches Ok(rop) && op_model(rop) == op && *final(pos) as int == p && *final(cur_d_addr) == d && *final(cur_o_addr) == o,
            Err(e) => r == Err::<Op<Add>, SmdiffError>(e) && *final(cur_d_addr) == *old(cur_d_addr) && *final(cur_o_addr) == *old(cur_o_addr),
        },
{
    proof {
        reveal(read_op_spec);
        if (*pos as int) < reader@.len() {
            lemma_op_type(reader@[*pos as int]);
        }
    }
    let ob = read_op_byte(reader, pos)?;
    let op = ob.op;
    let size = ob.size;
    if op == OpType::Run && !matches!(size, Size::Done(_)) {
        return Err(SmdiffError::InvalidData);
    }
    let size: u16 = match size {
        Size::Done(x) => x as u16,
        Size::U8And62 => {
            let v = read_u8(reader, pos)?;
            v as u16 + 62
        },
        Size::U16 => read_u16(reader, pos)?,
    };
    match op {
        OpType::Copy { src } => {
            let delta = read_i_varint(reader, pos)?;
            let len = size;
            let addr = if src == CopySrc::Dict {
                *cur_d_addr = diff_addresses_to_u64(*cur_d_addr, delta);
                *cur_d_addr
            } else {
                *cur_o_addr = diff_addresses_to_u64(*cur_o_addr, delta);
                *cur_o_addr
            };
            Ok(Op::Copy(crate::common::Copy { src, addr, len }))
        },
        OpType::Add => {
            if is_interleaved {
                let p = *pos;
                if p <= reader.len() && (size as usize) <= reader.len() - p {
                    let bytes = slice_to_vec(reader, p, p + size as usize);
                    *pos = p + size as usize;
                    Ok(Op::Add(Add { bytes }))
                } else {
                    Err(SmdiffError::UnexpectedEof)
                }
            } else {
                let bytes = zeros(size as usize);
                Ok(Op::Add(Add { bytes }))
            }
        },
        OpType::Run => {
            let byte = read_u8(reader, pos)?;
            Ok(Op::Run(Run { len: size as u8, byte }))
        },
    }
}


/// `n` operations read one after the other from `p`, starting with copy addresses 0, 0.
pub open spec fn read_ops_spec(s: Seq<u8>, p: int, n: nat, is_interleaved: bool) -> Result<(Seq<OpModel>, int, u64, u64), SmdiffError>
    decreases n,
{
    if n == 0 {
        Ok((Seq::empty(), p, 0u64, 0u64))
    } else {
        match read_ops_spec(s, p, (n - 1) as nat, is_interleaved) {
            Err(e) => Err(e),
            Ok((ops, q, d, o)) => match read_op_spec(s, q, d, o, is_interleaved) {
                Err(e) => Err(e),
                Ok((op, q2, d2, o2)) => Ok((ops.push(op), q2, d2, o2)),
            },
        }
    }
}

/// Fills the Add operations, in order, with the bytes found from `p` on (segregated format).
pub open spec fn fill_adds_spec(s: Seq<u8>, p: int, ops: Seq<OpModel>) -> Result<(Seq<OpModel>, int), SmdiffError>
    decreases ops.len(),
{
    if ops.len() == 0 {
        Ok((Seq::empty(), p))
    } else {
        match fill_adds_spec(s, p, ops.drop_last()) {
            Err(e) => Err(e),
            Ok((f, q)) => match ops.last() {
                OpModel::Add(b) => if q + b.len() <= s.len() {
                    Ok((f.push(OpModel::Add(s.subrange(q, q + b.len()))), q + b.len()))
                } else {
                    Err(SmdiffError::UnexpectedEof)
                },
                op => Ok((f.push(op), q)),
            },
        }
    }
}

/// The operations of a section whose header is `h`, read from `p`, and the position after them.
pub open spec fn read_ops_no_comp_spec(s: Seq<u8>, p: int, h: SectionHeader) -> Result<(Seq<OpModel>, int), SmdiffError> {
    match read_ops_spec(s, p, h.num_operations as nat, h.format is Interleaved) {
        Err(e) => Err(e),
        Ok((ops, q, _, _)) => if ops_oal_sum(ops) != h.output_size {
            Err(SmdiffError::InvalidData)
        } else if h.format is Interleaved {
            Ok((ops, q))
        } else {
            fill_adds_spec(s, q, ops)
        },
    }
}

proof fn lemma_fill_adds_shape(s: Seq<u8>, p: int, ops: Seq<OpModel>)
    requires
        0 <= p,
    ensures
        fill_adds_spec(s, p, ops) matches Ok((f, q)) ==> f.len() == ops.len() && p <= q
            && ops_oal_sum(f) == ops_oal_sum(ops) && ops_add_oal_sum(f) == ops_add_oal_sum(ops),
    decreases ops.len(),
{
    if ops.len() > 0 {
        lemma_fill_adds_shape(s, p, ops.drop_last());
        if let Ok((f, q)) = fill_adds_spec(s, p, ops) {
            let (f0, q0) = fill_adds_spec(s, p, ops.drop_last())->Ok_0;
            assert(f.drop_last() =~= f0);
        }
    }
}

/// Add bytes never outnumber the output bytes, and each operation adds less than 2^16 bytes.
pub proof fn lemma_sums_bound(ops: Seq<OpModel>)
    ensures
        ops_add_oal_sum(ops) <= ops_oal_sum(ops),
        ops_oal_sum(ops) <= ops.len() * 0x10000,
    decreases ops.len(),
{
    if ops.len() > 0 {
        lemma_sums_bound(ops.drop_last());
    }
}

/// Reads `n` operations from `*pos`, starting with copy addresses 0, 0.
fn read_n_ops(reader: &[u8], pos: &mut usize, n: u32, is_interleaved: bool) -> (r: Result<Vec<Op<Add>>, SmdiffError>)
    ensures
        match read_ops_spec(reader@, *old(pos) as int, n as nat, is_interleaved) {
            Ok((ops, p, _, _)) => r matches Ok(v) && models(v@) == ops && *final(pos) as int == p,
            Err(e) => r == Err::<Vec<Op<Add>>, SmdiffError>(e),
        },
{
    let mut cur_d_addr: u64 = 0;
    let mut cur_o_addr: u64 = 0;
    let mut ops: Vec<Op<Add>> = Vec::new();
    let mut i: u32 = 0;
    let ghost s = reader@;
    let ghost p0 = *pos as int;
    assert(models(ops@) =~= Seq::<OpModel>::empty());
    while i < n
        invariant
            s == reader@,
            p0 == *old(pos) as int,
            i <= n,
            read_ops_spec(s, p0, i as nat, is_interleaved) == Ok::<(Seq<OpModel>, int, u64, u64), SmdiffError>((models(ops@), *pos as int, cur_d_addr, cur_o_addr)),
        decreases n - i,
    {
        let ghost pre = models(ops@);
        let op = match read_op(reader, pos, &mut cur_d_addr, &mut cur_o_addr, is_interleaved) {
            Ok(op) => op,
            Err(e) => {
                proof {
                    assert(read_ops_spec(s, p0, (i + 1) as nat, is_interleaved) == Err::<(Seq<OpModel>, int, u64, u64), SmdiffError>(e));
                    lemma_read_ops_err(s, p0, i as nat, n as nat, is_interleaved);
                    assert(read_ops_spec(s, p0, n as nat, is_interleaved) == Err::<(Seq<OpModel>, int, u64, u64), SmdiffError>(e));
                    assert(p0 == *old(pos) as int);
                    assert(s == reader@);
                }
                return Err(e);
            },
        };
        ops.push(op);
        proof {
            assert(models(ops@) =~= pre.push(op_model(op)));
        }
        i = i + 1;
    }
    Ok(ops)
}

/// Sums of the recorded lengths of all operations, and of the Add operations.
fn oal_sums(ops: &Vec<Op<Add>>) -> (r: (u64, u64))
    requires
        ops@.len() <= u32::MAX,
    ensures
        r.0 == ops_oal_sum(models(ops@)),
        r.1 == ops_add_oal_sum(models(ops@)),
{
    let mut check_size: u64 = 0;
    let mut add_size: u64 = 0;
    let mut i: usize = 0;
    while i < ops.len()
        invariant
            i <= ops@.len() <= u32::MAX,
            check_size == ops_oal_sum(models(ops@.subrange(0, i as int))),
            add_size == ops_add_oal_sum(models(ops@.subrange(0, i as int))),
            check_size <= i * 0x10000,
        decreases ops@.len() - i,
    {
        proof {
            crate::writer::lemma_prefix_drop_last_models(ops@, i as int);
            lemma_sums_bound(models(ops@.subrange(0, i as int)));
        }
        let len = ops[i].oal() as u64;
        check_size = check_size + len;
        if ops[i].is_add() {
            add_size = add_size + len;
        }
        i = i + 1;
    }
    proof {
        assert(ops@.subrange(0, ops@.len() as int) =~= ops@);
    }
    (check_size, add_size)
}

/// Gives each Add operation, in order, the bytes found from `*pos` on.
fn fill_add_bytes(reader: &[u8], pos: &mut usize, ops: &Vec<Op<Add>>) -> (r: Result<Vec<Op<Add>>, SmdiffError>)
    ensures
        match fill_adds_spec(reader@, *old(pos) as int, models(ops@)) {
            Ok((f, p)) => r matches Ok(v) && models(v@) == f && *final(pos) as int == p,
            Err(e) => r == Err::<Vec<Op<Add>>, SmdiffError>(e),
        },
{
    let mut j: usize = 0;
    let ghost s = reader@;
    let ghost p1 = *pos as int;
    let ghost parsed = models(ops@);
    let mut filled: Vec<Op<Add>> = Vec::new();
    assert(parsed.subrange(0, 0) =~= Seq::<OpModel>::empty());
    assert(models(filled@) =~= Seq::<OpModel>::empty());
    while j < ops.len()
        invariant
            s == reader@,
            p1 == *old(pos) as int,
            j <= ops@.len(),
            parsed == models(ops@),
            fill_adds_spec(s, p1, parsed.subrange(0, j as int)) == Ok::<(Seq<OpModel>, int), SmdiffError>((models(filled@), *pos as int)),
        decreases ops@.len() - j,
    {
        proof {
            assert(parsed.subrange(0, j + 1).drop_last() =~= parsed.subrange(0, j as int));
        }
        let ghost pre = models(filled@);
        match &ops[j] {
            Op::Add(a) => {
                let n = a.bytes.len();
                let p = *pos;
                if p <= reader.len() && n <= reader.len() - p {
                    let bytes = slice_to_vec(reader, p, p + n);
                    *pos = p + n;
                    filled.push(Op::Add(Add { bytes }));
                } else {
                    proof {
                        assert(parsed.subrange(0, j + 1).last() == parsed[j as int]);
                        assert(parsed[j as int] == op_model(ops@[j as int]));
                        assert(fill_adds_spec(s, p1, parsed.subrange(0, j + 1)) == Err::<(Seq<OpModel>, int), SmdiffError>(SmdiffError::UnexpectedEof));
                        lemma_fill_adds_err(s, p1, parsed, (j + 1) as nat);
                    }
                    return Err(SmdiffError::UnexpectedEof);
                }
            },
            Op::Run(run) => {
                filled.push(Op::Run(*run));
            },
            Op::Copy(c) => {
                filled.push(Op::Copy(*c));
            },
        }
        proof {
            assert(models(filled@) =~= pre.push(op_model(filled@.last())));
        }
        j = j + 1;
    }
    proof {
        assert(parsed.subrange(0, parsed.len() as int) =~= parsed);
    }
    Ok(filled)
}

/// Reads the operations from the reader at `*pos`. Cannot have secondary compression still applied.
///
/// On success the operations are appended to `op_buffer` and `header.num_add_bytes` is set to the
/// number of Add bytes actually found, so the header reflects reality whatever the format.
/// On failure `op_buffer` and `header` are left unchanged.
pub fn read_ops_no_comp(reader: &[u8], pos: &mut usize, header: &mut SectionHeader, op_buffer: &mut Vec<Op<Add>>) -> (r: Result<(), SmdiffError>)
    ensures
        match read_ops_no_comp_spec(reader@, *old(pos) as int, *old(header)) {
            Ok((ops, p)) => {
                &&& r is Ok
                &&& *final(pos) as int == p
                &&& models(final(op_buffer)@) == models(old(op_buffer)@) + ops
                &&& *final(header) == (SectionHeader { num_add_bytes: ops_add_oal_sum(ops) as u32, ..*old(header) })
            },
            Err(e) => r == Err::<(), SmdiffError>(e) && *final(op_buffer) == *old(op_buffer) && *final(header) == *old(header),
        },
{
    let is_interleaved = header.format == Format::Interleaved;
    let ghost s = reader@;
    let ghost p0 = *pos as int;
    let mut ops = read_n_ops(reader, pos, header.num_operations, is_interleaved)?;
    proof {
        lemma_read_ops_len(s, p0, header.num_operations as nat, is_interleaved);
    }
    let (check_size, add_size) = oal_sums(&ops);
    if check_size != header.output_size as u64 {
        return Err(SmdiffError::InvalidData);
    }
    if !is_interleaved {
        let ghost unfilled = models(ops@);
        let filled = fill_add_bytes(reader, pos, &ops)?;
        proof {
            lemma_fill_adds_shape(s, *old(pos) as int, unfilled);
            lemma_fill_adds_shape(s, (read_ops_spec(s, p0, header.num_operations as nat, is_interleaved)->Ok_0).1, unfilled);
        }
        ops = filled;
    }
    proof {
        lemma_sums_bound(models(ops@));
    }
    let ghost b0 = models(op_buffer@);
    let mut k: usize = 0;
    let ghost new_ops = models(ops@);
    while k < ops.len()
        invariant
            k <= ops@.len(),
            new_ops == models(ops@),
            models(op_buffer@) == b0 + new_ops.subrange(0, k as int),
        decreases ops@.len() - k,
    {
        let ghost pre = models(op_buffer@);
        let o = clone_op(&ops[k]);
        op_buffer.push(o);
        proof {
            assert(models(op_buffer@) =~= pre.push(op_model(o)));
            assert(new_ops.subrange(0, k + 1) =~= new_ops.subrange(0, k as int).push(new_ops[k as int]));
        }
        k = k + 1;
    }
    proof {
        assert(new_ops.subrange(0, new_ops.len() as int) =~= new_ops);
    }
    header.num_add_bytes = add_size as u32;
    Ok(())
}

proof fn lemma_read_ops_len(s: Seq<u8>, p: int, n: nat, il: bool)
    ensures
        read_ops_spec(s, p, n, il) matches Ok((ops, _, _, _)) ==> ops.len() == n,
    decreases n,
{
    if n > 0 {
        lemma_read_ops_len(s, p, (n - 1) as nat, il);
    }
}

/// A copy of an operation (its model is the same).
pub fn clone_op(op: &Op<Add>) -> (r: Op<Add>)
    ensures
        op_model(r) == op_model(*op),
{
    match op {
        Op::Add(a) => {
            let bytes = slice_to_vec(a.bytes.as_slice(), 0, a.bytes.len());
            proof {
                assert(a.bytes@.subrange(0, a.bytes@.len() as int) =~= a.bytes@);
            }
            Op::Add(Add { bytes })
        },
        Op::Run(run) => Op::Run(*run),
        Op::Copy(c) => Op::Copy(*c),
    }
}

proof fn lemma_read_ops_err(s: Seq<u8>, p: int, i: nat, n: nat, il: bool)
    requires
        i < n,
        read_ops_spec(s, p, i, il) is Ok,
        read_ops_spec(s, p, (i + 1) as nat, il) is Err,
    ensures
        read_ops_spec(s, p, n, il) == read_ops_spec(s, p, (i + 1) as nat, il),
    decreases n - i,
{
    if n > i + 1 {
        lemma_read_ops_err(s, p, i, (n - 1) as nat, il);
    }
}

proof fn lemma_fill_adds_err(s: Seq<u8>, p: int, ops: Seq<OpModel>, j: nat)
    requires
        1 <= j <= ops.len(),
        fill_adds_spec(s, p, ops.subrange(0, j as int)) is Err,
    ensures
        fill_adds_spec(s, p, ops) == fill_adds_spec(s, p, ops.subrange(0, j as int)),
    decreases ops.len() - j,
{
    if j < ops.len() {
        assert(ops.drop_last().subrange(0, j as int) =~= ops.subrange(0, j as int));
        lemma_fill_adds_err(s, p, ops.drop_last(), j);
        assert(ops.drop_last().subrange(0, j as int) =~= ops.subrange(0, j as int));
    } else {
        assert(ops.subrange(0, j as int) =~= ops);
    }
}


/// A whole section read at `p`: (header, operations, position after the section).
/// The header's `num_add_bytes` is the number of Add bytes actually found.
pub open spec fn read_section_spec(s: Seq<u8>, p: int) -> Result<(SectionHeader, Seq<OpModel>, int), SmdiffError> {
    match read_section_header_spec(s, p) {
        Err(e) => Err(e),
        Ok((h, p1)) => match read_ops_no_comp_spec(s, p1, h) {
            Err(e) => Err(e),
            Ok((ops, p2)) => Ok((SectionHeader { num_add_bytes: ops_add_oal_sum(ops) as u32, ..h }, ops, p2)),
        },
    }
}

/// Reads a complete section (header and operations) at `*pos`; the operations are appended to `op_buffer`.
/// Cannot have secondary compression still applied.
pub fn read_section(reader: &[u8], pos: &mut usize, op_buffer: &mut Vec<Op<Add>>) -> (r: Result<SectionHeader, SmdiffError>)
    ensures
        match read_section_spec(reader@, *old(pos) as int) {
            Ok((h, ops, p)) => r == Ok::<SectionHeader, SmdiffError>(h) && *final(pos) as int == p
                && models(final(op_buffer)@) == models(old(op_buffer)@) + ops,
            Err(e) => r == Err::<SectionHeader, SmdiffError>(e) && *final(op_buffer) == *old(op_buffer),
        },
{
    let mut header = read_section_header(reader, pos)?;
    read_ops_no_comp(reader, pos, &mut header, op_buffer)?;
    Ok(header)
}

/// A reader that will keep reading sections until it reaches the terminal section.
pub struct SectionIterator {
    source: Vec<u8>,
    pos: usize,
    done: bool,
    op_buffer: Vec<Op<Add>>,
}

impl SectionIterator {
    /// The patch bytes.
    pub closed spec fn source_spec(&self) -> Seq<u8> {
        self.source@
    }

    /// Where the next section starts.
    pub closed spec fn pos_spec(&self) -> int {
        self.pos as int
    }

    /// True once the terminal section has been read.
    pub closed spec fn done_spec(&self) -> bool {
        self.done
    }

    pub fn new(source: Vec<u8>) -> (r: Self)
        ensures
            r.source_spec() == source@,
            r.pos_spec() == 0,
            !r.done_spec(),
    {
        SectionIterator { source, pos: 0, done: false, op_buffer: Vec::new() }
    }

    /// Reads and returns the next section (if it exists).
    pub fn next_borrowed(&mut self) -> (r: Option<Result<(&[Op<Add>], SectionHeader), SmdiffError>>)
        ensures
            final(self).source_spec() == old(self).source_spec(),
            old(self).done_spec() ==> r is None && final(self).pos_spec() == old(self).pos_spec() && final(self).done_spec(),
            !old(self).done_spec() ==> match read_section_spec(old(self).source_spec(), old(self).pos_spec()) {
                Ok((h, ops, p)) => r matches Some(Ok((sl, hh))) && hh == h && models(sl@) == ops
                    && final(self).pos_spec() == p && final(self).done_spec() == !h.more_sections,
                Err(e) => r == Some(Err::<(&[Op<Add>], SectionHeader), SmdiffError>(e)) && !final(self).done_spec()
                    && final(self).pos_spec() == old(self).pos_spec(),
            },
            !old(self).done_spec() ==> (final(self).pos_spec(), final(self).done_spec())
                == crate::decoder::iter_from(old(self).source_spec(), old(self).pos_spec(), 1),
    {
        proof {
            reveal_with_fuel(crate::decoder::iter_from, 2);
        }
        if self.done {
            return None;
        }
        self.op_buffer.clear();
        let mut pos = self.pos;
        let header = match read_section(self.source.as_slice(), &mut pos, &mut self.op_buffer) {
            Ok(v) => v,
            Err(e) => return Some(Err(e)),
        };
        self.pos = pos;
        proof {
            assert(models(self.op_buffer@) =~= models(Seq::<Op<Add>>::empty()) + models(self.op_buffer@));
        }
        if !header.more_sections {
            self.done = true;
        }
        Some(Ok((self.op_buffer.as_slice(), header)))
    }

    /// Reads and returns the next section (if it exists), handing over the operations.
    pub fn next_owned(&mut self) -> (r: Option<Result<(Vec<Op<Add>>, SectionHeader), SmdiffError>>)
        ensures
            final(self).source_spec() == old(self).source_spec(),
            old(self).done_spec() ==> r is None && final(self).pos_spec() == old(self).pos_spec() && final(self).done_spec(),
            !old(self).done_spec() ==> match read_section_spec(old(self).source_spec(), old(self).pos_spec()) {
                Ok((h, ops, p)) => r matches Some(Ok((v, hh))) && hh == h && models(v@) == ops
                    && final(self).pos_spec() == p && final(self).done_spec() == !h.more_sections,
                Err(e) => r == Some(Err::<(Vec<Op<Add>>, SectionHeader), SmdiffError>(e)) && !final(self).done_spec(),
            },
    {
        if self.done {
            return None;
        }
        let mut op_buffer: Vec<Op<Add>> = Vec::new();
        let mut pos = self.pos;
        let header = match read_section(self.source.as_slice(), &mut pos, &mut op_buffer) {
            Ok(v) => v,
            Err(e) => return Some(Err(e)),
        };
        self.pos = pos;
        proof {
            assert(models(op_buffer@) =~= models(Seq::<Op<Add>>::empty()) + models(op_buffer@));
        }
        if !header.more_sections {
            self.done = true;
        }
        Some(Ok((op_buffer, header)))
    }

    pub fn into_inner(self) -> (r: Vec<u8>)
        ensures
            r@ == self.source_spec(),
    {
        self.source
    }
}


// ---------------------------------------------------------------------------
// Reading back what the writer wrote
// ---------------------------------------------------------------------------
/// How an operation reads back: in the segregated format an Add comes back holding zeros
/// (its bytes are filled in afterwards).
pub open spec fn read_back(op: OpModel, is_interleaved: bool) -> OpModel {
    match op {
        OpModel::Add(b) => if is_interleaved {
            op
        } else {
            OpModel::Add(Seq::new(b.len(), |i: int| 0u8))
        },
        _ => op,
    }
}

/// The bytes of one operation inside a section body.
pub open spec fn op_body_bytes(op: OpModel, d: u64, o: u64, segregated: bool) -> Seq<u8> {
    op_head_bytes(op) + if segregated && op is Add {
        Seq::empty()
    } else {
        op_addtl_bytes(op, d, o)
    }
}

/// Operations the format can carry faithfully: Runs of 1..=62, Adds of at most u16::MAX bytes.
pub open spec fn op_roundtrips(op: OpModel) -> bool {
    op_writable(op) && op_len(op) < 0x10000
}

proof fn lemma_op_byte_bits(f: u8, x: u8)
    requires
        f == 0 || f == 0x40 || f == 0x80 || f == 0xc0,
        x <= 63,
    ensures
        (f | x) & 0x3fu8 == x,
        (f | x) & 0xc0u8 == f,
{
    assert((f == 0 || f == 0x40 || f == 0x80 || f == 0xc0) && x <= 63 ==> (f | x) & 0x3fu8 == x && (f | x) & 0xc0u8 == f) by (bit_vector);
}

proof fn lemma_sub_eq(s: Seq<u8>, p: int, a: Seq<u8>, b: Seq<u8>)
    requires
        0 <= p,
        p + a.len() + b.len() <= s.len(),
        s.subrange(p, p + a.len() + b.len()) == a + b,
    ensures
        s.subrange(p, p + a.len()) == a,
        s.subrange(p + a.len(), p + a.len() + b.len()) == b,
{
    assert(s.subrange(p, p + a.len()) =~= (a + b).subrange(0, a.len() as int));
    assert((a + b).subrange(0, a.len() as int) =~= a);
    assert(s.subrange(p + a.len(), p + a.len() + b.len()) =~= (a + b).subrange(a.len() as int, (a.len() + b.len()) as int));
    assert((a + b).subrange(a.len() as int, (a.len() + b.len()) as int) =~= b);
}

/// One written operation reads back (and moves the copy addresses the same way).
pub proof fn lemma_read_op_roundtrip(s: Seq<u8>, p: int, op: OpModel, d: u64, o: u64, is_interleaved: bool)
    requires
        0 <= p,
        op_roundtrips(op),
        p + op_body_bytes(op, d, o, !is_interleaved).len() <= s.len(),
        s.subrange(p, p + op_body_bytes(op, d, o, !is_interleaved).len()) == op_body_bytes(op, d, o, !is_interleaved),
    ensures
        read_op_spec(s, p, d, o, is_interleaved) == Ok::<(OpModel, int, u64, u64), SmdiffError>(
            (read_back(op, is_interleaved), p + op_body_bytes(op, d, o, !is_interleaved).len(), next_addrs(op, d, o).0, next_addrs(op, d, o).1),
        ),
{
    reveal(read_op_spec);
    let head = op_head_bytes(op);
    let tail = if !is_interleaved && op is Add {
        Seq::<u8>::empty()
    } else {
        op_addtl_bytes(op, d, o)
    };
    lemma_sub_eq(s, p, head, tail);
    let l = op_oal(op) as u16;
    let f = op_flag(op);
    assert(l as nat == op_len(op));
    let q = p + head.len();
    assert(s[p] == head[0]) by {
        assert(s.subrange(p, p + head.len())[0] == s[p]);
    }
    match size_routine_spec(l) {
        Size::Done(x) => {
            lemma_op_byte_bits(f, x);
            assert(head.len() == 1);
        },
        Size::U8And62 => {
            lemma_op_byte_bits(f, SIZE_MASK);
            assert(head.len() == 2);
            assert(s[p + 1] == head[1]) by {
                assert(s.subrange(p, p + head.len())[1] == s[p + 1]);
            }
        },
        Size::U16 => {
            lemma_op_byte_bits(f, 0);
            assert(f | 0u8 == f) by (bit_vector);
            assert(head.len() == 3);
            assert(s.subrange(p + 1, p + 3) =~= s.subrange(p, p + head.len()).subrange(1, 3));
            assert(head.subrange(1, 3) =~= u16_le_bytes(l));
            lemma_u16_roundtrip(l, s, p + 1);
        },
    }
    match op {
        OpModel::Copy(c) => {
            let base = if c.src is Dict { d } else { o };
            let delta = wrap_i64(c.addr - base) as i64;
            assert(tail == i_varint_bytes(delta));
            lemma_i_varint_roundtrip(delta, s, q);
            lemma_diff_addresses_roundtrip(base, c.addr);
        },
        OpModel::Add(b) => {
            if is_interleaved {
                assert(tail == b);
            } else {
                assert(tail.len() == 0);
            }
        },
        OpModel::Run(r) => {
            assert(tail == seq![r.byte]);
            assert(s[q] == tail[0]) by {
                assert(s.subrange(q, q + tail.len())[0] == s[q]);
            }
        },
    }
}


/// How a sequence of written operations reads back.
pub open spec fn read_backs(ops: Seq<OpModel>, is_interleaved: bool) -> Seq<OpModel> {
    ops.map_values(|op: OpModel| read_back(op, is_interleaved))
}

proof fn lemma_body_prefix(ops: Seq<OpModel>, k: int, seg: bool)
    requires
        0 <= k <= ops.len(),
    ensures
        ops_body(ops.subrange(0, k), seg).len() <= ops_body(ops, seg).len(),
        ops_body(ops, seg).subrange(0, ops_body(ops.subrange(0, k), seg).len() as int) == ops_body(ops.subrange(0, k), seg),
    decreases ops.len(),
{
    if k == ops.len() {
        assert(ops.subrange(0, k) =~= ops);
        assert(ops_body(ops, seg).subrange(0, ops_body(ops, seg).len() as int) =~= ops_body(ops, seg));
    } else {
        let dl = ops.drop_last();
        lemma_body_prefix(dl, k, seg);
        assert(dl.subrange(0, k) =~= ops.subrange(0, k));
        let a = ops_body(dl, seg);
        let full = ops_body(ops, seg);
        assert(full.subrange(0, a.len() as int) =~= a);
        let b = ops_body(ops.subrange(0, k), seg);
        assert(full.subrange(0, b.len() as int) =~= a.subrange(0, b.len() as int));
    }
}

proof fn lemma_read_ops_roundtrip(s: Seq<u8>, p: int, ops: Seq<OpModel>, k: nat, il: bool)
    requires
        0 <= p,
        k <= ops.len(),
        forall|i: int| 0 <= i < ops.len() ==> op_roundtrips(#[trigger] ops[i]),
        p + ops_body(ops, !il).len() <= s.len(),
        s.subrange(p, p + ops_body(ops, !il).len()) == ops_body(ops, !il),
    ensures
        read_ops_spec(s, p, k, il) == Ok::<(Seq<OpModel>, int, u64, u64), SmdiffError>(
            (
                read_backs(ops.subrange(0, k as int), il),
                p + ops_body(ops.subrange(0, k as int), !il).len(),
                addrs_after(ops.subrange(0, k as int)).0,
                addrs_after(ops.subrange(0, k as int)).1,
            ),
        ),
    decreases k,
{
    if k == 0 {
        assert(read_backs(ops.subrange(0, 0), il) =~= Seq::<OpModel>::empty());
    } else {
        lemma_read_ops_roundtrip(s, p, ops, (k - 1) as nat, il);
        let pre = ops.subrange(0, k - 1);
        let cur = ops.subrange(0, k as int);
        assert(cur.drop_last() =~= pre);
        let (d, o) = addrs_after(pre);
        let op = ops[k - 1];
        let q = p + ops_body(pre, !il).len();
        let ob = op_body_bytes(op, d, o, !il);
        assert(ops_body(cur, !il) == ops_body(pre, !il) + ob);
        lemma_body_prefix(ops, k as int, !il);
        let full = ops_body(ops, !il);
        let bc = ops_body(cur, !il);
        assert(s.subrange(p, p + bc.len()) =~= full.subrange(0, bc.len() as int));
        lemma_sub_eq(s, p, ops_body(pre, !il), ob);
        lemma_read_op_roundtrip(s, q, op, d, o, il);
        assert(read_backs(cur, il) =~= read_backs(pre, il).push(read_back(op, il)));
    }
}

proof fn lemma_fill_roundtrip(s: Seq<u8>, q: int, ops: Seq<OpModel>)
    requires
        0 <= q,
        q + ops_add_bytes(ops).len() <= s.len(),
        s.subrange(q, q + ops_add_bytes(ops).len()) == ops_add_bytes(ops),
    ensures
        fill_adds_spec(s, q, read_backs(ops, false)) == Ok::<(Seq<OpModel>, int), SmdiffError>((ops, q + ops_add_bytes(ops).len())),
    decreases ops.len(),
{
    if ops.len() == 0 {
        assert(read_backs(ops, false) =~= Seq::<OpModel>::empty());
        assert(ops =~= Seq::<OpModel>::empty());
    } else {
        let dl = ops.drop_last();
        let a = ops_add_bytes(dl);
        let last_bytes = match ops.last() {
            OpModel::Add(b) => b,
            _ => Seq::<u8>::empty(),
        };
        assert(ops_add_bytes(ops) == a + last_bytes);
        lemma_sub_eq(s, q, a, last_bytes);
        lemma_fill_roundtrip(s, q, dl);
        assert(read_backs(ops, false).drop_last() =~= read_backs(dl, false));
        assert(ops =~= dl.push(ops.last()));
    }
}

proof fn lemma_control_byte_bits(a: u8, f: u8, m: u8)
    requires
        a <= 7,
        f == 0 || f == 0x40,
        m == 0 || m == 0x80,
    ensures
        ((((a << 3u8) | f | m) as u8) & 0x40u8 == 0x40u8) == (f == 0x40),
        ((((a << 3u8) | f | m) as u8) & 0x80u8 == 0x80u8) == (m == 0x80),
        (((((a << 3u8) | f | m) as u8) & 0x38u8) >> 3u8) as u8 == a,
{
    assert(a <= 7 && (f == 0 || f == 0x40) && (m == 0 || m == 0x80) ==> {
        &&& ((((a << 3u8) | f | m) as u8) & 0x40u8 == 0x40u8) == (f == 0x40)
        &&& ((((a << 3u8) | f | m) as u8) & 0x80u8 == 0x80u8) == (m == 0x80)
        &&& (((((a << 3u8) | f | m) as u8) & 0x38u8) >> 3u8) as u8 == a
    }) by (bit_vector);
}

/// A written section header reads back (an interleaved header carries no Add byte count).
#[verifier::spinoff_prover]
#[verifier::rlimit(80)]
pub proof fn lemma_read_header_roundtrip(s: Seq<u8>, p: int, h: SectionHeader)
    requires
        0 <= p,
        h.compression_algo <= 7,
        h.format is Segregated ==> h.num_add_bytes <= h.output_size,
        p + header_bytes(h).len() <= s.len(),
        s.subrange(p, p + header_bytes(h).len()) == header_bytes(h),
    ensures
        read_section_header_spec(s, p) == Ok::<(SectionHeader, int), SmdiffError>(
            (
                SectionHeader { num_add_bytes: if h.format is Segregated { h.num_add_bytes } else { 0 }, ..h },
                p + header_bytes(h).len(),
            ),
        ),
{
    let seg = h.format is Segregated;
    lemma_control_byte_bits(
        h.compression_algo,
        if seg { SECTION_FORMAT_BIT } else { 0u8 },
        if h.more_sections { SECTION_CONTINUE_BIT } else { 0u8 },
    );
    let cb = control_byte(h);
    let hb = header_bytes(h);
    assert(s[p] == cb) by {
        assert(s.subrange(p, p + hb.len())[0] == s[p]);
    }
    let v1 = u_varint_bytes(h.num_operations as nat);
    let p1 = p + 1;
    if seg {
        let v2 = u_varint_bytes(h.num_add_bytes as nat);
        let v3 = u_varint_bytes((h.output_size - h.num_add_bytes) as nat);
        assert(hb =~= seq![cb] + (v1 + (v2 + v3)));
        lemma_sub_eq(s, p, seq![cb], v1 + (v2 + v3));
        lemma_sub_eq(s, p1, v1, v2 + v3);
        lemma_sub_eq(s, p1 + v1.len(), v2, v3);
        lemma_u_varint_u64_roundtrip(h.num_operations as u64, s, p1);
        lemma_u_varint_u64_roundtrip(h.num_add_bytes as u64, s, p1 + v1.len());
        lemma_u_varint_u64_roundtrip((h.output_size - h.num_add_bytes) as u64, s, p1 + v1.len() + v2.len());
    } else {
        let v3 = u_varint_bytes(h.output_size as nat);
        assert(hb =~= seq![cb] + (v1 + v3));
        lemma_sub_eq(s, p, seq![cb], v1 + v3);
        lemma_sub_eq(s, p1, v1, v3);
        lemma_u_varint_u64_roundtrip(h.num_operations as u64, s, p1);
        lemma_u_varint_u64_roundtrip(h.output_size as u64, s, p1 + v1.len());
    }
}

/// The Add bytes of operations that round-trip are as many as their recorded lengths say.
pub proof fn lemma_add_sums(ops: Seq<OpModel>)
    requires
        forall|i: int| 0 <= i < ops.len() ==> op_roundtrips(#[trigger] ops[i]),
    ensures
        ops_add_oal_sum(ops) == ops_add_bytes(ops).len(),
    decreases ops.len(),
{
    if ops.len() > 0 {
        let dl = ops.drop_last();
        assert forall|i: int| 0 <= i < dl.len() implies op_roundtrips(#[trigger] dl[i]) by {
            assert(dl[i] == ops[i]);
        }
        lemma_add_sums(dl);
        assert(op_roundtrips(ops[ops.len() - 1]));
    }
}

/// The operations written after a section header read back, whatever Add byte count the
/// header holds, and the position lands right after them.
pub proof fn lemma_body_roundtrip(s: Seq<u8>, q: int, h: SectionHeader, ops: Seq<OpModel>)
    requires
        0 <= q,
        h.num_operations == ops.len(),
        ops_oal_sum(ops) == h.output_size,
        forall|i: int| 0 <= i < ops.len() ==> op_roundtrips(#[trigger] ops[i]),
        q + ops_bytes(ops, h.format).len() <= s.len(),
        s.subrange(q, q + ops_bytes(ops, h.format).len()) == ops_bytes(ops, h.format),
    ensures
        read_ops_no_comp_spec(s, q, h) == Ok::<(Seq<OpModel>, int), SmdiffError>((ops, q + ops_bytes(ops, h.format).len())),
{
    let ob = ops_bytes(ops, h.format);
    let il = h.format is Interleaved;
    let body = ops_body(ops, !il);
    assert(ops.subrange(0, ops.len() as int) =~= ops);
    if il {
        assert(ob == body);
        lemma_read_ops_roundtrip(s, q, ops, ops.len(), il);
        assert(read_backs(ops, true) =~= ops);
    } else {
        let adds = ops_add_bytes(ops);
        assert(ob == body + adds);
        lemma_sub_eq(s, q, body, adds);
        lemma_read_ops_roundtrip(s, q, ops, ops.len(), il);
        lemma_fill_roundtrip(s, q + body.len(), ops);
        lemma_read_backs_oal(ops);
    }
}

/// Reading back a section that was written gives its header and its operations:
/// the header read equals the one written, except that `num_add_bytes` holds the Add bytes
/// actually found, and the position lands right after the section.
pub proof fn lemma_section_roundtrip(s: Seq<u8>, p: int, h: SectionHeader, ops: Seq<OpModel>)
    requires
        0 <= p,
        h.compression_algo <= 7,
        h.num_operations == ops.len(),
        ops_oal_sum(ops) == h.output_size,
        forall|i: int| 0 <= i < ops.len() ==> op_roundtrips(#[trigger] ops[i]),
        h.format is Segregated ==> h.num_add_bytes == ops_add_bytes(ops).len(),
        p + header_bytes(h).len() + ops_bytes(ops, h.format).len() <= s.len(),
        s.subrange(p, p + header_bytes(h).len() + ops_bytes(ops, h.format).len()) == header_bytes(h) + ops_bytes(ops, h.format),
    ensures
        read_section_spec(s, p) == Ok::<(SectionHeader, Seq<OpModel>, int), SmdiffError>(
            (
                SectionHeader { num_add_bytes: ops_add_bytes(ops).len() as u32, ..h },
                ops,
                p + header_bytes(h).len() + ops_bytes(ops, h.format).len(),
            ),
        ),
{
    let hb = header_bytes(h);
    let ob = ops_bytes(ops, h.format);
    lemma_sub_eq(s, p, hb, ob);
    lemma_add_sums(ops);
    lemma_sums_bound(ops);
    lemma_read_header_roundtrip(s, p, h);
    let hr = SectionHeader { num_add_bytes: if h.format is Segregated { h.num_add_bytes } else { 0 }, ..h };
    lemma_body_roundtrip(s, p + hb.len(), hr, ops);
}

proof fn lemma_read_backs_oal(ops: Seq<OpModel>)
    ensures
        ops_oal_sum(read_backs(ops, false)) == ops_oal_sum(ops),
    decreases ops.len(),
{
    if ops.len() > 0 {
        lemma_read_backs_oal(ops.drop_last());
        assert(read_backs(ops, false).drop_last() =~= read_backs(ops.drop_last(), false));
    }
}


proof fn lemma_u_varint_parse_bound(s: Seq<u8>, i: int, count: nat)
    ensures
        u_varint_parse_at(s, i, count) matches Some((v, l)) ==> 0 <= i && 1 <= l && i + l <= s.len(),
    decreases 10 - count,
{
    if !(count >= 10 || i < 0 || i >= s.len()) && s[i] >= 128 {
        lemma_u_varint_parse_bound(s, i + 1, count + 1);
    }
}

/// A u-varint read stays inside the input and consumes at least one byte.
proof fn lemma_read_u_varint_bounds(s: Seq<u8>, p: int)
    ensures
        read_u_varint_spec(s, p) matches Ok((v, q)) ==> 0 <= p < q <= s.len(),
{
    lemma_u_varint_parse_bound(s, p, 0);
}

proof fn lemma_read_op_bounds(s: Seq<u8>, p: int, d: u64, o: u64, il: bool)
    ensures
        read_op_spec(s, p, d, o, il) matches Ok((op, q, d2, o2)) ==> 0 <= p < q <= s.len(),
{
    reveal(read_op_spec);
    if let Ok((byte, p1)) = read_u8_spec(s, p) {
        lemma_read_u_varint_bounds(s, p1);
        lemma_read_u_varint_bounds(s, p1 + 1);
        lemma_read_u_varint_bounds(s, p1 + 2);
    }
}

proof fn lemma_read_ops_bounds(s: Seq<u8>, p: int, n: nat, il: bool)
    requires
        0 <= p <= s.len(),
    ensures
        read_ops_spec(s, p, n, il) matches Ok((ops, q, d, o)) ==> p <= q <= s.len(),
    decreases n,
{
    if n > 0 {
        lemma_read_ops_bounds(s, p, (n - 1) as nat, il);
        if let Ok((ops, q, d, o)) = read_ops_spec(s, p, (n - 1) as nat, il) {
            lemma_read_op_bounds(s, q, d, o, il);
        }
    }
}

proof fn lemma_fill_adds_bounds(s: Seq<u8>, p: int, ops: Seq<OpModel>)
    requires
        0 <= p <= s.len(),
    ensures
        fill_adds_spec(s, p, ops) matches Ok((f, q)) ==> p <= q <= s.len(),
    decreases ops.len(),
{
    if ops.len() > 0 {
        lemma_fill_adds_bounds(s, p, ops.drop_last());
    }
}

/// Reading a section header consumes at least one byte and stays inside the input.
pub proof fn lemma_read_header_bounds(s: Seq<u8>, p: int)
    ensures
        read_section_header_spec(s, p) matches Ok((h, q)) ==> 0 <= p < q <= s.len(),
{
    if let Ok((b, p1)) = read_u8_spec(s, p) {
        lemma_read_u_varint_bounds(s, p1);
        if let Ok((n, p2)) = read_u_varint_spec(s, p1) {
            lemma_read_u_varint_bounds(s, p2);
            if let Ok((a, p3)) = read_u_varint_spec(s, p2) {
                lemma_read_u_varint_bounds(s, p3);
            }
        }
    }
}

/// Reading the operations of a section stays inside the input and never moves backwards.
pub proof fn lemma_read_ops_no_comp_bounds(s: Seq<u8>, p: int, h: SectionHeader)
    requires
        0 <= p <= s.len(),
    ensures
        read_ops_no_comp_spec(s, p, h) matches Ok((ops, q)) ==> p <= q <= s.len(),
{
    let il = h.format is Interleaved;
    lemma_read_ops_bounds(s, p, h.num_operations as nat, il);
    if let Ok((ops, q, d, o)) = read_ops_spec(s, p, h.num_operations as nat, il) {
        lemma_fill_adds_bounds(s, q, ops);
    }
}

/// Reading a section consumes at least one byte and stays inside the input.
pub proof fn lemma_read_section_bounds(s: Seq<u8>, p: int)
    ensures
        read_section_spec(s, p) matches Ok((h, ops, q)) ==> 0 <= p < q <= s.len(),
{
    lemma_read_header_bounds(s, p);
    if let Ok((h, p1)) = read_section_header_spec(s, p) {
        lemma_read_ops_no_comp_bounds(s, p1, h);
    }
}


// ---------------------------------------------------------------------------
// What reading gives
// ---------------------------------------------------------------------------
/// All the operations round-trip.
pub open spec fn all_roundtrip_models(ops: Seq<OpModel>) -> bool {
    forall|i: int| 0 <= i < ops.len() ==> op_roundtrips(#[trigger] ops[i])
}

/// An operation read back is one the format carries faithfully: sizes come from at most
/// two bytes, and a Run's from its op byte (1..=62).
pub proof fn lemma_read_op_gives_roundtrip(s: Seq<u8>, p: int, d: u64, o: u64, il: bool)
    requires
        0 <= p,
    ensures
        read_op_spec(s, p, d, o, il) matches Ok((op, q, d2, o2)) ==> op_roundtrips(op),
{
    reveal(read_op_spec);
    if let Ok((byte, p1)) = read_u8_spec(s, p) {
        let size = size_routine_spec((byte & SIZE_MASK) as u16);
        let ty = byte & OP_MASK;
        assert(ty == 0u8 || ty == 0x40u8 || ty == 0x80u8 || ty == 0xc0u8) by (bit_vector)
            requires
                ty == byte & 0xc0u8,
        ;
        if let Ok((op, q, d2, o2)) = read_op_spec(s, p, d, o, il) {
            if ty == RUN {
                assert(size is Done);
                let x = size->Done_0;
                assert(1 <= x <= 62);
            }
        }
    }
}

/// Operations read back all round-trip.
pub proof fn lemma_read_ops_give_roundtrip(s: Seq<u8>, p: int, n: nat, il: bool)
    requires
        0 <= p <= s.len(),
    ensures
        read_ops_spec(s, p, n, il) matches Ok((ops, q, d, o)) ==> all_roundtrip_models(ops),
    decreases n,
{
    if n > 0 {
        lemma_read_ops_give_roundtrip(s, p, (n - 1) as nat, il);
        lemma_read_ops_bounds(s, p, (n - 1) as nat, il);
        if let Ok((ops0, q0, d0, o0)) = read_ops_spec(s, p, (n - 1) as nat, il) {
            lemma_read_op_gives_roundtrip(s, q0, d0, o0, il);
        }
    }
}

/// Filling in Add bytes keeps every length, so round-tripping is kept.
pub proof fn lemma_fill_keeps_roundtrip(s: Seq<u8>, p: int, ops: Seq<OpModel>)
    requires
        0 <= p,
        all_roundtrip_models(ops),
    ensures
        fill_adds_spec(s, p, ops) matches Ok((f, q)) ==> all_roundtrip_models(f),
    decreases ops.len(),
{
    if ops.len() > 0 {
        let dl = ops.drop_last();
        assert forall|i: int| 0 <= i < dl.len() implies op_roundtrips(#[trigger] dl[i]) by {
            assert(dl[i] == ops[i]);
        }
        lemma_fill_keeps_roundtrip(s, p, dl);
        lemma_fill_adds_shape(s, p, dl);
        if let Ok((f, q)) = fill_adds_spec(s, p, ops) {
            let (f0, q0) = fill_adds_spec(s, p, dl)->Ok_0;
            assert(op_roundtrips(ops[ops.len() - 1]));
            let last = ops.last();
            let new_op = match last {
                OpModel::Add(b) => OpModel::Add(s.subrange(q0, q0 + b.len())),
                op => op,
            };
            assert(f == f0.push(new_op));
            assert(op_roundtrips(new_op));
            assert forall|i: int| 0 <= i < f.len() implies op_roundtrips(#[trigger] f[i]) by {
                if i < f0.len() {
                    assert(f[i] == f0[i]);
                } else {
                    assert(f[i] == new_op);
                }
            }
        }
    }
}

/// The operations of a section body read back all round-trip.
pub proof fn lemma_read_body_gives_roundtrip(s: Seq<u8>, p: int, h: SectionHeader)
    requires
        0 <= p <= s.len(),
    ensures
        read_ops_no_comp_spec(s, p, h) matches Ok((ops, q)) ==> all_roundtrip_models(ops),
{
    lemma_read_ops_give_roundtrip(s, p, h.num_operations as nat, h.format is Interleaved);
    lemma_read_ops_bounds(s, p, h.num_operations as nat, h.format is Interleaved);
    if let Ok((ops, q, d, o)) = read_ops_spec(s, p, h.num_operations as nat, h.format is Interleaved) {
        lemma_fill_keeps_roundtrip(s, q, ops);
    }
}
} // verus!
