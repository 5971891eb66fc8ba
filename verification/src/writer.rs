//! Constructs valid SMDIFF sections: headers and operations.
//! This is *not* an encoder, it only lays out given operations in the format.
use vstd::prelude::*;
use crate::common::{
    i_varint_bytes, op_flag, op_oal, push_slice, size_routine, size_routine_spec, u16_le_bytes,
    u_varint_bytes, write_i_varint, write_u16, write_u8, write_u_varint, wrap_i64, diff_addresses_to_i64,
    op_model, models, OpModel, AddOp, CopySrc, Format, Op, SectionHeader, Size, SmdiffError, MAX_INST_SIZE, MAX_RUN_LEN, MAX_WIN_SIZE,
    SECTION_CONTINUE_BIT, SECTION_FORMAT_BIT, SIZE_MASK,
};

verus! {

/// The control byte of a section header.
pub open spec fn control_byte(h: SectionHeader) -> u8 {
    ((h.compression_algo << 3u8) | (if h.format is Segregated { SECTION_FORMAT_BIT } else { 0u8 }) | (
    if h.more_sections { SECTION_CONTINUE_BIT } else { 0u8 })) as u8
}

/// The bytes of an encoded section header.
pub open spec fn header_bytes(h: SectionHeader) -> Seq<u8> {
    if h.format is Segregated {
        seq![control_byte(h)] + u_varint_bytes(h.num_operations as nat) + u_varint_bytes(
            h.num_add_bytes as nat,
        ) + u_varint_bytes((h.output_size - h.num_add_bytes) as nat)
    } else {
        seq![control_byte(h)] + u_varint_bytes(h.num_operations as nat) + u_varint_bytes(
            h.output_size as nat,
        )
    }
}

/// Used to write the header to the section.
/// * `header` - The header to write.
/// * `writer` - The writer to write to.
pub fn write_section_header(header: &SectionHeader, writer: &mut Vec<u8>) -> (r: Result<(), SmdiffError>)
    requires
        header.format is Segregated ==> header.num_add_bytes <= header.output_size,
    ensures
        r is Ok,
        final(writer)@ == old(writer)@ + header_bytes(*header),
{
    let ghost w0 = writer@;
    let mut cntl_byte: u8 = header.compression_algo << 3u8;
    if let Format::Segregated = header.format {
        cntl_byte = cntl_byte | SECTION_FORMAT_BIT;
    } else {
        cntl_byte = cntl_byte | 0u8;
    }
    if header.more_sections {
        cntl_byte = cntl_byte | SECTION_CONTINUE_BIT;
    } else {
        cntl_byte = cntl_byte | 0u8;
    }
    let _ = write_u8(writer, cntl_byte);
    let _ = write_u_varint(writer, header.num_operations as u64);
    let output_size = if header.format == Format::Segregated {
        let _ = write_u_varint(writer, header.num_add_bytes as u64);
        header.output_size - header.num_add_bytes
    } else {
        header.output_size
    };
    let _ = write_u_varint(writer, output_size as u64);
    assert(writer@ =~= w0 + header_bytes(*header));
    Ok(())
}

/// The op byte and size indicator of an operation.
pub open spec fn op_head_bytes(op: OpModel) -> Seq<u8> {
    let l = op_oal(op) as u16;
    let f = op_flag(op);
    match size_routine_spec(l) {
        Size::Done(x) => seq![f | x],
        Size::U8And62 => seq![f | SIZE_MASK, (l - 62) as u8],
        Size::U16 => seq![f] + u16_le_bytes(l),
    }
}

/// Operations the writer accepts: Runs are 1..=62 long.
pub open spec fn op_writable(op: OpModel) -> bool {
    op is Run ==> 1 <= op->Run_0.len <= MAX_RUN_LEN
}

fn write_op_byte_and_size<A: AddOp>(writer: &mut Vec<u8>, op: &Op<A>) -> (r: Result<(), SmdiffError>)
    requires
        op_writable(op_model(*op)),
    ensures
        r is Ok,
        final(writer)@ == old(writer)@ + op_head_bytes(op_model(*op)),
{
    let ghost w0 = writer@;
    let byte = op.bit_flag();
    let oal = op.oal();
    let size = size_routine(oal);
    match size {
        Size::Done(len) => {
            let _ = write_u8(writer, byte | len);
        },
        Size::U8And62 => {
            let _ = write_u8(writer, byte | SIZE_MASK);
            let _ = write_u8(writer, (oal - 62) as u8);
        },
        Size::U16 => {
            let _ = write_u8(writer, byte);
            let _ = write_u16(writer, oal);
        },
    }
    assert(writer@ =~= w0 + op_head_bytes(op_model(*op)));
    Ok(())
}

/// The additional field of an operation given the last copy addresses (dict, output).
pub open spec fn op_addtl_bytes(op: OpModel, d: u64, o: u64) -> Seq<u8> {
    match op {
        OpModel::Run(run) => seq![run.byte],
        OpModel::Add(a) => a,
        OpModel::Copy(c) => match c.src {
            CopySrc::Dict => i_varint_bytes(wrap_i64(c.addr - d) as i64),
            CopySrc::Output => i_varint_bytes(wrap_i64(c.addr - o) as i64),
        },
    }
}

/// The last copy addresses (dict, output) after an operation.
pub open spec fn next_addrs(op: OpModel, d: u64, o: u64) -> (u64, u64) {
    match op {
        OpModel::Copy(c) => match c.src {
            CopySrc::Dict => (c.addr, o),
            CopySrc::Output => (d, c.addr),
        },
        _ => (d, o),
    }
}

fn write_op_addtl<A: AddOp>(writer: &mut Vec<u8>, op: &Op<A>, cur_d_addr: &mut u64, cur_o_addr: &mut u64) -> (r: Result<(), SmdiffError>)
    ensures
        r is Ok,
        final(writer)@ == old(writer)@ + op_addtl_bytes(op_model(*op), *old(cur_d_addr), *old(cur_o_addr)),
        (*final(cur_d_addr), *final(cur_o_addr)) == next_addrs(op_model(*op), *old(cur_d_addr), *old(cur_o_addr)),
{
    match op {
        Op::Run(run) => {
            let _ = write_u8(writer, run.byte);
        },
        Op::Add(add) => {
            push_slice(writer, add.bytes());
        },
        Op::Copy(copy) => {
            match copy.src {
                CopySrc::Dict => {
                    let delta = diff_addresses_to_i64(*cur_d_addr, copy.addr);
                    let _ = write_i_varint(writer, delta);
                    *cur_d_addr = copy.addr;
                },
                CopySrc::Output => {
                    let delta = diff_addresses_to_i64(*cur_o_addr, copy.addr);
                    let _ = write_i_varint(writer, delta);
                    *cur_o_addr = copy.addr;
                },
            }
        },
    }
    Ok(())
}

/// Last copy addresses after a sequence of operations (starting from 0, 0).
pub open spec fn addrs_after(ops: Seq<OpModel>) -> (u64, u64)
    decreases ops.len(),
{
    if ops.len() == 0 {
        (0u64, 0u64)
    } else {
        let (d, o) = addrs_after(ops.drop_last());
        next_addrs(ops.last(), d, o)
    }
}

/// The encoded operations of a section. Segregated sections leave the Add bytes out here.
pub open spec fn ops_body(ops: Seq<OpModel>, segregated: bool) -> Seq<u8>
    decreases ops.len(),
{
    if ops.len() == 0 {
        Seq::empty()
    } else {
        let prefix = ops.drop_last();
        let (d, o) = addrs_after(prefix);
        let op = ops.last();
        ops_body(prefix, segregated) + op_head_bytes(op) + if segregated && op is Add {
            Seq::empty()
        } else {
            op_addtl_bytes(op, d, o)
        }
    }
}

/// The Add bytes of the operations, in order.
pub open spec fn ops_add_bytes(ops: Seq<OpModel>) -> Seq<u8>
    decreases ops.len(),
{
    if ops.len() == 0 {
        Seq::empty()
    } else {
        ops_add_bytes(ops.drop_last()) + match ops.last() {
            OpModel::Add(a) => a,
            _ => Seq::empty(),
        }
    }
}

/// Sum of the recorded lengths (oal) of the operations.
pub open spec fn ops_oal_sum(ops: Seq<OpModel>) -> nat
    decreases ops.len(),
{
    if ops.len() == 0 {
        0
    } else {
        ops_oal_sum(ops.drop_last()) + op_oal(ops.last())
    }
}

/// The complete bytes `write_ops` emits for a section (when it writes at all).
pub open spec fn ops_bytes(ops: Seq<OpModel>, format: Format) -> Seq<u8> {
    if format is Segregated {
        ops_body(ops, true) + ops_add_bytes(ops)
    } else {
        ops_body(ops, false)
    }
}

pub proof fn lemma_prefix_drop_last_models<A: AddOp>(s: Seq<Op<A>>, i: int)
    requires
        0 <= i < s.len(),
    ensures
        models(s.subrange(0, i + 1)).drop_last() == models(s.subrange(0, i)),
        models(s.subrange(0, i + 1)).last() == op_model(s[i]),
        models(s.subrange(0, i + 1)).len() == i + 1,
{
    assert(models(s.subrange(0, i + 1)).drop_last() =~= models(s.subrange(0, i)));
}

pub proof fn lemma_range_drop_last_models<A: AddOp>(s: Seq<Op<A>>, a: int, i: int)
    requires
        0 <= a <= i < s.len(),
    ensures
        models(s.subrange(a, i + 1)).drop_last() == models(s.subrange(a, i)),
        models(s.subrange(a, i + 1)).last() == op_model(s[i]),
        models(s.subrange(a, i + 1)).len() == i + 1 - a,
{
    assert(models(s.subrange(a, i + 1)).drop_last() =~= models(s.subrange(a, i)));
}

/// Used to write just the ops for the section.
/// * `ops` - The operations to write.
/// * `header` - The header for the section. This must match the contents of the ops.
/// * `writer` - The writer to write to.
pub fn write_ops<A: AddOp>(ops: &[Op<A>], header: &SectionHeader, writer: &mut Vec<u8>) -> (r: Result<(), SmdiffError>)
    requires
        forall|i: int| 0 <= i < ops@.len() ==> op_writable(op_model(#[trigger] ops@[i])),
    ensures
        header.output_size > MAX_WIN_SIZE || ops@.len() != header.num_operations ==> r == Err::<(), SmdiffError>(SmdiffError::InvalidData) && final(writer)@ == old(writer)@,
        header.output_size <= MAX_WIN_SIZE && ops@.len() == header.num_operations ==> {
            &&& final(writer)@ == old(writer)@ + ops_bytes(models(ops@), header.format)
            &&& (r is Ok <==> (header.format is Segregated ==> ops_add_bytes(models(ops@)).len() == header.num_add_bytes) && ops_oal_sum(models(ops@)) == header.output_size)
            &&& r is Err ==> r == Err::<(), SmdiffError>(SmdiffError::InvalidData)
        },
{
    if header.output_size as usize > MAX_WIN_SIZE {
        return Err(SmdiffError::InvalidData);
    }
    if ops.len() != header.num_operations as usize {
        return Err(SmdiffError::InvalidData);
    }
    let ghost w0 = writer@;
    let segregated = header.format == Format::Segregated;
    let mut last_d_addr: u64 = 0;
    let mut last_o_addr: u64 = 0;
    let mut total_content_len: u64 = 0;
    let mut add_buffer: Vec<u8> = Vec::new();
    let mut i: usize = 0;
    while i < ops.len()
        invariant
            i <= ops@.len(),
            ops@.len() == header.num_operations,
            segregated == (header.format is Segregated),
            forall|j: int| 0 <= j < ops@.len() ==> op_writable(op_model(#[trigger] ops@[j])),
            writer@ == w0 + ops_body(models(ops@.subrange(0, i as int)), segregated),
            (last_d_addr, last_o_addr) == addrs_after(models(ops@.subrange(0, i as int))),
            total_content_len == ops_oal_sum(models(ops@.subrange(0, i as int))),
            total_content_len <= i * 0x10000,
            segregated ==> add_buffer@ == ops_add_bytes(models(ops@.subrange(0, i as int))),
        decreases ops@.len() - i,
    {
        let op = &ops[i];
        proof {
            lemma_prefix_drop_last_models(ops@, i as int);
        }
        let ghost pre = writer@;
        total_content_len = total_content_len + op.oal() as u64;
        let _ = write_op_byte_and_size(writer, op);
        let ghost mid = writer@;
        if segregated {
            match op {
                Op::Add(a) => {
                    let slice = a.bytes();
                    push_slice(&mut add_buffer, slice);
                    assert(writer@ =~= pre + op_head_bytes(op_model(*op)) + Seq::empty());
                },
                _ => {
                    let _ = write_op_addtl(writer, op, &mut last_d_addr, &mut last_o_addr);
                },
            }
        } else {
            let _ = write_op_addtl(writer, op, &mut last_d_addr, &mut last_o_addr);
        }
        i = i + 1;
    }
    assert(ops@.subrange(0, ops@.len() as int) =~= ops@);
    if segregated {
        push_slice(writer, add_buffer.as_slice());
        if add_buffer.len() != header.num_add_bytes as usize {
            return Err(SmdiffError::InvalidData);
        }
    }
    if total_content_len != header.output_size as u64 {
        return Err(SmdiffError::InvalidData);
    }
    Ok(())
}


/// Sum of the recorded lengths of the Add operations.
pub open spec fn ops_add_oal_sum(ops: Seq<OpModel>) -> nat
    decreases ops.len(),
{
    if ops.len() == 0 {
        0
    } else {
        ops_add_oal_sum(ops.drop_last()) + if ops.last() is Add {
            op_oal(ops.last())
        } else {
            0
        }
    }
}

/// The header `make_sections` gives a group of operations.
pub open spec fn section_header_for(ops: Seq<OpModel>, more_sections: bool) -> SectionHeader {
    SectionHeader {
        num_operations: ops.len() as u32,
        num_add_bytes: ops_add_oal_sum(ops) as u32,
        output_size: ops_oal_sum(ops) as u32,
        compression_algo: 0,
        format: Format::Interleaved,
        more_sections,
    }
}

/// The operations of all sections, in order.
pub open spec fn sections_ops<A>(secs: Seq<(&[Op<A>], SectionHeader)>) -> Seq<Op<A>>
    decreases secs.len(),
{
    if secs.len() == 0 {
        Seq::empty()
    } else {
        sections_ops(secs.drop_last()) + secs.last().0@
    }
}

/// The section size `make_sections` works with: `max_section_size` clamped to MAX_INST_SIZE..=MAX_WIN_SIZE.
pub open spec fn clamp_section_size(max_section_size: usize) -> nat {
    if max_section_size < MAX_INST_SIZE {
        MAX_INST_SIZE as nat
    } else if max_section_size > MAX_WIN_SIZE {
        MAX_WIN_SIZE as nat
    } else {
        max_section_size as nat
    }
}

proof fn lemma_oal_sums_bound(ops: Seq<OpModel>)
    ensures
        ops_add_oal_sum(ops) <= ops_oal_sum(ops),
    decreases ops.len(),
{
    if ops.len() > 0 {
        lemma_oal_sums_bound(ops.drop_last());
    }
}

/// The sections closed so far: each header describes its non-empty operations and says
/// more sections follow, each holds at most `m` output bytes, and each would have gone over
/// `m` with the first operation of the next.
#[verifier::opaque]
spec fn closed_sections<A: AddOp>(result: Seq<(&[Op<A>], SectionHeader)>, m: nat) -> bool {
    &&& forall|k: int| 0 <= k < result.len() ==> (#[trigger] result[k]).1 == section_header_for(models(result[k].0@), true)
    &&& forall|k: int| 0 <= k < result.len() ==> ops_oal_sum(models((#[trigger] result[k]).0@)) <= m
    &&& forall|k: int| 0 <= k < result.len() ==> (#[trigger] result[k]).0@.len() > 0
    &&& forall|k: int| 0 <= k < result.len() - 1 ==> ops_oal_sum(models((#[trigger] result[k]).0@)) + op_oal(op_model(result[k + 1].0@[0])) > m
}

proof fn lemma_closed_empty<A: AddOp>(m: nat)
    ensures
        closed_sections(Seq::<(&[Op<A>], SectionHeader)>::empty(), m),
{
    reveal(closed_sections);
}

proof fn lemma_closed_push<'a, A: AddOp>(result: Seq<(&'a [Op<A>], SectionHeader)>, x: (&'a [Op<A>], SectionHeader), m: nat)
    requires
        closed_sections(result, m),
        x.1 == section_header_for(models(x.0@), true),
        ops_oal_sum(models(x.0@)) <= m,
        x.0@.len() > 0,
        result.len() > 0 ==> ops_oal_sum(models(result.last().0@)) + op_oal(op_model(x.0@[0])) > m,
    ensures
        closed_sections(result.push(x), m),
{
    reveal(closed_sections);
    let r2 = result.push(x);
    assert forall|k: int| 0 <= k < r2.len() - 1 implies ops_oal_sum(models((#[trigger] r2[k]).0@)) + op_oal(op_model(r2[k + 1].0@[0])) > m by {
        if k < result.len() - 1 {
            assert(r2[k] == result[k]);
            assert(r2[k + 1] == result[k + 1]);
        }
    }
    assert forall|k: int| 0 <= k < r2.len() implies (#[trigger] r2[k]).1 == section_header_for(models(r2[k].0@), true) by {
        if k < result.len() {
            assert(r2[k] == result[k]);
        }
    }
}

/// The closed sections and a terminal last one make what `make_sections` promises.
proof fn lemma_closed_final<'a, A: AddOp>(result: Seq<(&'a [Op<A>], SectionHeader)>, x: (&'a [Op<A>], SectionHeader), m: nat, all_empty: bool)
    requires
        closed_sections(result, m),
        x.1 == section_header_for(models(x.0@), false),
        ops_oal_sum(models(x.0@)) <= m,
        x.0@.len() > 0 || all_empty,
        result.len() > 0 ==> x.0@.len() > 0 && ops_oal_sum(models(result.last().0@)) + op_oal(op_model(x.0@[0])) > m,
    ensures
        ({
            let r2 = result.push(x);
            &&& forall|k: int| 0 <= k < r2.len() ==> (#[trigger] r2[k]).1 == section_header_for(models(r2[k].0@), k < r2.len() - 1)
            &&& forall|k: int| 0 <= k < r2.len() ==> ops_oal_sum(models((#[trigger] r2[k]).0@)) <= m
            &&& forall|k: int| 0 <= k < r2.len() ==> (#[trigger] r2[k]).0@.len() > 0 || all_empty
            &&& forall|k: int| 0 <= k < r2.len() - 1 ==> ops_oal_sum(models((#[trigger] r2[k]).0@)) + op_oal(op_model(r2[k + 1].0@[0])) > m
        }),
{
    reveal(closed_sections);
    let r2 = result.push(x);
    assert forall|k: int| 0 <= k < r2.len() - 1 implies ops_oal_sum(models((#[trigger] r2[k]).0@)) + op_oal(op_model(r2[k + 1].0@[0])) > m by {
        if k < result.len() - 1 {
            assert(r2[k] == result[k]);
            assert(r2[k + 1] == result[k + 1]);
        }
    }
    assert forall|k: int| 0 <= k < r2.len() implies (#[trigger] r2[k]).1 == section_header_for(models(r2[k].0@), k < r2.len() - 1) by {
        if k < result.len() {
            assert(r2[k] == result[k]);
        }
    }
}

/// This takes a large list of ops and divides them into sections that are no larger than `max_section_size`
/// * `ops` - The list of ops to divide into sections.
/// * `max_section_size` - The maximum size of each section in output bytes.
/// * Returns a vector of tuples containing the ops for each section and the header for that section.
#[verifier::rlimit(50)]
#[verifier::spinoff_prover]
pub fn make_sections<'a, A: AddOp>(ops: &'a [Op<A>], max_section_size: usize) -> (r: Vec<(&'a [Op<A>], SectionHeader)>)
    ensures
        r@.len() >= 1,
        sections_ops(r@) == ops@,
        forall|k: int| 0 <= k < r@.len() ==> (#[trigger] r@[k]).1 == section_header_for(models(r@[k].0@), k < r@.len() - 1),
        forall|k: int| 0 <= k < r@.len() ==> ops_oal_sum(models((#[trigger] r@[k]).0@)) <= clamp_section_size(max_section_size),
        forall|k: int| 0 <= k < r@.len() ==> (#[trigger] r@[k]).0@.len() > 0 || ops@.len() == 0,
        forall|k: int| 0 <= k < r@.len() - 1 ==> ops_oal_sum(models((#[trigger] r@[k]).0@)) + op_oal(op_model(r@[k + 1].0@[0])) > clamp_section_size(max_section_size),
{
    let max_win_size: u32 = if max_section_size < MAX_INST_SIZE {
        MAX_INST_SIZE as u32
    } else if max_section_size > MAX_WIN_SIZE {
        MAX_WIN_SIZE as u32
    } else {
        max_section_size as u32
    };
    let ghost m = clamp_section_size(max_section_size);
    let mut result: Vec<(&'a [Op<A>], SectionHeader)> = Vec::new();
    let mut output_size: u32 = 0;
    let mut num_add_bytes: u32 = 0;
    let mut start_index: usize = 0;
    let mut end_index: usize = 0;
    proof {
        lemma_closed_empty::<A>(m);
    }
    while end_index < ops.len()
        invariant
            max_win_size == m,
            MAX_INST_SIZE <= m <= MAX_WIN_SIZE,
            start_index <= end_index <= ops@.len(),
            output_size == ops_oal_sum(models(ops@.subrange(start_index as int, end_index as int))),
            num_add_bytes == ops_add_oal_sum(models(ops@.subrange(start_index as int, end_index as int))),
            output_size <= m,
            sections_ops(result@) == ops@.subrange(0, start_index as int),
            closed_sections(result@, m),
            result@.len() > 0 ==> start_index < ops@.len() && ops_oal_sum(models(result@.last().0@)) + op_oal(op_model(ops@[start_index as int])) > m,
        decreases ops@.len() - end_index,
    {
        let op_size = ops[end_index].oal() as u32;
        if output_size + op_size > max_win_size {
            let slice = vstd::slice::slice_subrange(ops, start_index, end_index);
            proof {
                lemma_oal_sums_bound(models(ops@.subrange(start_index as int, end_index as int)));
                if start_index == end_index {
                    assert(ops@.subrange(start_index as int, end_index as int).len() == 0);
                }
            }
            let header = SectionHeader {
                num_operations: (end_index - start_index) as u32,
                num_add_bytes,
                output_size,
                compression_algo: 0,
                format: Format::Interleaved,
                more_sections: true,
            };
            let ghost old_result = result@;
            proof {
                if old_result.len() > 0 {
                    assert(slice@[0] == ops@[start_index as int]);
                }
                lemma_closed_push(old_result, (slice, header), m);
            }
            result.push((slice, header));
            proof {
                assert(result@ == old_result.push((slice, header)));
                assert(result@.drop_last() =~= old_result);
                assert(ops@.subrange(0, end_index as int) =~= ops@.subrange(0, start_index as int) + slice@);
            }
            start_index = end_index;
            output_size = 0;
            num_add_bytes = 0;
        }
        proof {
            lemma_range_drop_last_models(ops@, start_index as int, end_index as int);
            lemma_oal_sums_bound(models(ops@.subrange(start_index as int, end_index as int)));
        }
        if ops[end_index].is_add() {
            num_add_bytes = num_add_bytes + op_size;
        }
        output_size = output_size + op_size;
        end_index = end_index + 1;
    }
    let slice = vstd::slice::slice_subrange(ops, start_index, ops.len());
    let header = SectionHeader {
        num_operations: (ops.len() - start_index) as u32,
        num_add_bytes,
        output_size,
        compression_algo: 0,
        format: Format::Interleaved,
        more_sections: false,
    };
    let ghost old_result = result@;
    proof {
        lemma_oal_sums_bound(models(ops@.subrange(start_index as int, end_index as int)));
        if old_result.len() > 0 {
            assert(slice@[0] == ops@[start_index as int]);
        }
        lemma_closed_final(old_result, (slice, header), m, ops@.len() == 0);
    }
    result.push((slice, header));
    proof {
        assert(result@ == old_result.push((slice, header)));
        assert(result@.drop_last() =~= old_result);
        assert(ops@.subrange(0, ops@.len() as int) =~= ops@.subrange(0, start_index as int) + slice@);
        assert(ops@.subrange(0, ops@.len() as int) =~= ops@);
    }
    result
}

} // verus!
