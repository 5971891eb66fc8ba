//! Shared definitions of the SMDIFF format: operations, section headers,
//! the variable length integer encodings and address differencing.
use vstd::prelude::*;

verus! {

/// Bits for the operation type
pub const OP_MASK: u8 = 0b11000000;
/// Copy from dictionary bit flag value
pub const COPY_D: u8 = 0b00000000;
/// Copy from output bit flag value
pub const COPY_O: u8 = 0b01000000;
/// Add bit flag value
pub const ADD: u8 = 0b10000000;
/// Run bit flag value
pub const RUN: u8 = 0b11000000;
/// Bits for the Size Value
pub const SIZE_MASK: u8 = 0b00111111;
/// Inclusive Upper Bound
pub const MAX_RUN_LEN: u8 = 62;
/// Inclusive Upper Bound
pub const MAX_INST_SIZE: usize = 65535;
/// Inclusive Upper Bound (16MB)
pub const MAX_WIN_SIZE: usize = 16777215;
/// Control byte bit: another section follows
pub const SECTION_CONTINUE_BIT: u8 = 0b10000000;
/// Control byte bit: the section uses the segregated format
pub const SECTION_FORMAT_BIT: u8 = 0b01000000;
/// Control byte bits holding the compression algorithm
pub const SECTION_COMPRESSION_MASK: u8 = 0b00111000;
/// Shift of the compression algorithm inside the control byte
pub const SECTION_COMPRESSION_RSHIFT: u8 = 3;

/// Errors raised while reading, writing or applying SMDIFF data.
#[derive(Clone, Copy, Debug, PartialEq, Eq, Structural)]
pub enum SmdiffError {
    /// The input ended before a complete value could be read.
    UnexpectedEof,
    /// The input (or the data to write) breaks the format.
    InvalidData,
    /// A dictionary copy was met but no dictionary was supplied.
    MissingSource,
    /// A secondary compressor or decompressor failed.
    Compression,
}

/// Format of the how a section is laid out.
/// * Interleaved: The Add bytes follow each Add Opertion
/// * Segregated: All Add bytes are at the end of the section
/// default: Interleaved
#[derive(Copy, Clone, Debug, PartialEq, Eq, Structural)]
pub enum Format {
    /// The Add bytes follow each Add Opertion
    Interleaved,
    /// All Add bytes are at the end of the section
    Segregated,
}

impl Default for Format {
    fn default() -> (r: Self)
        ensures
            r == Format::Interleaved,
    {
        Format::Interleaved
    }
}

impl Format {
    pub fn is_interleaved(&self) -> (r: bool)
        ensures
            r == (*self is Interleaved),
    {
        matches!(self, Format::Interleaved)
    }

    pub fn is_segregated(&self) -> (r: bool)
        ensures
            r == (*self is Segregated),
    {
        matches!(self, Format::Segregated)
    }
}

/// Header struct for a section
#[derive(Copy, Clone, Debug, PartialEq, Eq, Structural)]
pub struct SectionHeader {
    /// Should be a value between 0-7 per the spec
    pub compression_algo: u8,
    pub format: Format,
    /// true if there are more sections to decode after this one.
    pub more_sections: bool,
    /// Total number of operations in the section
    pub num_operations: u32,
    /// Total Add bytes at the end of the section (not needed for interleaved format)
    pub num_add_bytes: u32,
    /// Total output size generated from the operations in this section
    pub output_size: u32,
}

impl Default for SectionHeader {
    fn default() -> (r: Self)
        ensures
            r == SectionHeader::new_spec(0, 0, 0),
    {
        SectionHeader::new(0, 0, 0)
    }
}

impl SectionHeader {
    pub open spec fn new_spec(num_operations: u32, num_add_bytes: u32, output_size: u32) -> Self {
        SectionHeader {
            compression_algo: 0,
            format: Format::Interleaved,
            more_sections: false,
            num_operations,
            num_add_bytes,
            output_size,
        }
    }

    /// Create a new SectionHeader with the given counts; every other field takes its default.
    pub fn new(num_operations: u32, num_add_bytes: u32, output_size: u32) -> (r: Self)
        ensures
            r == Self::new_spec(num_operations, num_add_bytes, output_size),
    {
        SectionHeader {
            compression_algo: 0,
            format: Format::Interleaved,
            more_sections: false,
            num_operations,
            num_add_bytes,
            output_size,
        }
    }

    /// Set the compression algorithm (clamped to 0..=7) to use for this section
    pub fn set_compression_algo(self, compression_algo: u8) -> (r: Self)
        ensures
            r == (SectionHeader {
                compression_algo: if compression_algo <= 7 { compression_algo } else { 7 },
                ..self
            }),
    {
        let mut s = self;
        s.compression_algo = if compression_algo <= 7 { compression_algo } else { 7 };
        s
    }

    pub fn set_format(self, format: Format) -> (r: Self)
        ensures
            r == (SectionHeader { format, ..self }),
    {
        let mut s = self;
        s.format = format;
        s
    }

    /// Indicate if this section is *not* the last section
    pub fn set_more_sections(self, more_sections: bool) -> (r: Self)
        ensures
            r == (SectionHeader { more_sections, ..self }),
    {
        let mut s = self;
        s.more_sections = more_sections;
        s
    }

    pub fn is_compressed(&self) -> (r: bool)
        ensures
            r == (self.compression_algo != 0),
    {
        self.compression_algo != 0
    }

    pub fn is_interleaved(&self) -> (r: bool)
        ensures
            r == (self.format is Interleaved),
    {
        self.format.is_interleaved()
    }
}

/// Trait for the Add Operation.
/// Depending on the usage, the Add bytes may be stored in different ways.
pub trait AddOp {
    /// The bytes this Add operation emits.
    spec fn add_bytes(&self) -> Seq<u8>;

    /// Get the bytes for the Add Operation
    fn bytes(&self) -> (r: &[u8])
        ensures
            r@ == self.add_bytes(),
    ;
}

/// Add operation that owns its bytes.
#[derive(Clone, Debug, PartialEq, Eq)]
pub struct Add {
    pub bytes: Vec<u8>,
}

impl Add {
    pub fn new(bytes: Vec<u8>) -> (r: Self)
        ensures
            r.bytes@ == bytes@,
    {
        Add { bytes }
    }
}

impl AddOp for Add {
    open spec fn add_bytes(&self) -> Seq<u8> {
        self.bytes@
    }

    fn bytes(&self) -> (r: &[u8]) {
        self.bytes.as_slice()
    }
}

/// Run Operation
/// * byte: The byte to repeat
/// * len: The number of times to repeat the byte (1-62)
#[derive(Clone, Copy, Debug, PartialEq, Eq, Structural)]
pub struct Run {
    pub byte: u8,
    pub len: u8,
}

/// Where the Copy Operation should copy from.
/// * Dict: Copy from the dictionary (source file)
/// * Output: Copy from the output buffer (output file)
#[derive(Copy, Clone, Debug, PartialEq, Eq, Structural)]
pub enum CopySrc {
    Dict,
    Output,
}

/// Copy Operation
/// * src: The source of the copy (Dict or Output)
/// * addr: The absolute start position in the src to start copying from
/// * len: The number of bytes to copy.
#[derive(Copy, Clone, Debug, PartialEq, Eq, Structural)]
pub struct Copy {
    pub src: CopySrc,
    pub addr: u64,
    pub len: u16,
}

/// Enum for the different types of operations
/// * Run: Repeat a byte a number of times
/// * Copy: Copy bytes from a source to the output
/// * Add: Add bytes to the output
#[derive(Clone, Debug, PartialEq, Eq)]
pub enum Op<A> {
    Run(Run),
    Copy(Copy),
    Add(A),
}

/// The mathematical content of an operation: an Add is just its bytes.
pub enum OpModel {
    Run(Run),
    Copy(Copy),
    Add(Seq<u8>),
}

/// The model of an operation.
pub open spec fn op_model<A: AddOp>(op: Op<A>) -> OpModel {
    match op {
        Op::Run(r) => OpModel::Run(r),
        Op::Copy(c) => OpModel::Copy(c),
        Op::Add(a) => OpModel::Add(a.add_bytes()),
    }
}

/// The models of a sequence of operations.
pub open spec fn models<A: AddOp>(ops: Seq<Op<A>>) -> Seq<OpModel> {
    ops.map_values(|o: Op<A>| op_model(o))
}

/// The bit flag of the operation type, per the spec.
pub open spec fn op_flag(op: OpModel) -> u8 {
    match op {
        OpModel::Run(_) => RUN,
        OpModel::Copy(c) => match c.src {
            CopySrc::Dict => COPY_D,
            CopySrc::Output => COPY_O,
        },
        OpModel::Add(_) => ADD,
    }
}

/// Number of output bytes an operation generates (an Add keeps its full length here).
pub open spec fn op_len(op: OpModel) -> nat {
    match op {
        OpModel::Run(r) => r.len as nat,
        OpModel::Copy(c) => c.len as nat,
        OpModel::Add(a) => a.len(),
    }
}

/// The operation length as the format records it (a u16).
pub open spec fn op_oal(op: OpModel) -> nat {
    op_len(op) % 0x10000
}

impl<A> Op<A> {
    /// Get the bit flag for the operation type.
    pub fn bit_flag(&self) -> (r: u8)
        ensures
            r == (match *self {
                Op::Run(_) => RUN,
                Op::Copy(c) => match c.src {
                    CopySrc::Dict => COPY_D,
                    CopySrc::Output => COPY_O,
                },
                Op::Add(_) => ADD,
            }),
    {
        match self {
            Op::Run(_) => RUN,
            Op::Copy(copy) => match copy.src {
                CopySrc::Dict => COPY_D,
                CopySrc::Output => COPY_O,
            },
            Op::Add(_) => ADD,
        }
    }

    pub fn is_add(&self) -> (r: bool)
        ensures
            r == (*self is Add),
    {
        matches!(self, Op::Add(_))
    }

    pub fn is_run(&self) -> (r: bool)
        ensures
            r == (*self is Run),
    {
        matches!(self, Op::Run(_))
    }

    pub fn is_copy(&self) -> (r: bool)
        ensures
            r == (*self is Copy),
    {
        matches!(self, Op::Copy(_))
    }

    pub fn take_copy(&self) -> (r: Option<Copy>)
        ensures
            r == (match *self {
                Op::Copy(c) => Some(c),
                _ => None,
            }),
    {
        match self {
            Op::Copy(copy) => Some(*copy),
            _ => None,
        }
    }
}

impl<A: AddOp> Op<A> {
    /// Get the total number of bytes this operation will generate in the output stream
    /// (as a u16: an Add longer than u16::MAX wraps).
    pub fn oal(&self) -> (r: u16)
        ensures
            r as nat == op_oal(op_model(*self)),
    {
        match self {
            Op::Add(add) => {
                let n = add.bytes().len();
                let r = (n % 0x10000) as u16;
                r
            },
            Op::Copy(copy) => copy.len,
            Op::Run(run) => run.len as u16,
        }
    }
}

/// Used to determine how the size should be handled.
#[derive(Copy, Clone, Debug, PartialEq, Eq, Structural)]
pub enum Size {
    Done(u8),
    U8And62,
    U16,
}

impl Size {
    /// How many bytes will the Size Indicator be in the patch file.
    /// * 0 represents no Size Indicator is present.
    pub fn size_overhead(&self) -> (r: usize)
        ensures
            r == (match *self {
                Size::Done(_) => 0usize,
                Size::U8And62 => 1,
                Size::U16 => 2,
            }),
    {
        match self {
            Size::Done(_) => 0,
            Size::U8And62 => 1,
            Size::U16 => 2,
        }
    }
}

pub open spec fn size_routine_spec(size: u16) -> Size {
    if 1 <= size <= 62 {
        Size::Done(size as u8)
    } else if size == 63 {
        Size::U8And62
    } else {
        Size::U16
    }
}

/// Used to determine how an operation of `size` (oal) should be encoded.
pub fn size_routine(size: u16) -> (r: Size)
    ensures
        r == size_routine_spec(size),
{
    if 1 <= size && size <= 62 {
        Size::Done(size as u8)
    } else if size == 63 {
        Size::U8And62
    } else {
        Size::U16
    }
}

// ---------------------------------------------------------------------------
// ZigZag
// ---------------------------------------------------------------------------
pub open spec fn zigzag_spec(n: int) -> int {
    if n >= 0 {
        2 * n
    } else {
        -2 * n - 1
    }
}

pub open spec fn unzigzag_spec(z: int) -> int {
    if z % 2 == 0 {
        z / 2
    } else {
        -(z / 2) - 1
    }
}

/// Convert an i64 to a u64 using ZigZag encoding.
pub fn zigzag_encode(n: i64) -> (r: u64)
    ensures
        r as int == zigzag_spec(n as int),
{
    if n >= 0 {
        (n as u64) * 2
    } else {
        ((-(n + 1)) as u64) * 2 + 1
    }
}

/// Convert a u64 to an i64 using ZigZag decoding.
pub fn zigzag_decode(z: u64) -> (r: i64)
    ensures
        r as int == unzigzag_spec(z as int),
{
    let h = (z / 2) as i64;
    if z % 2 == 0 {
        h
    } else {
        -h - 1
    }
}

/// ZigZag decoding undoes ZigZag encoding, and the other way round.
pub proof fn lemma_zigzag_roundtrip(n: i64, z: u64)
    ensures
        unzigzag_spec(zigzag_spec(n as int)) == n as int,
        0 <= zigzag_spec(n as int) <= u64::MAX,
        zigzag_spec(unzigzag_spec(z as int)) == z as int,
        i64::MIN <= unzigzag_spec(z as int) <= i64::MAX,
{
}

// ---------------------------------------------------------------------------
// u-varint
// ---------------------------------------------------------------------------
/// The u-varint encoding of `n`: 7 bits per byte, least significant group first,
/// the high bit marking that another byte follows.
pub open spec fn u_varint_bytes(n: nat) -> Seq<u8>
    decreases n,
{
    if n < 128 {
        seq![n as u8]
    } else {
        seq![(n % 128 + 128) as u8] + u_varint_bytes(n / 128)
    }
}

/// Reads a u-varint out of `s` starting at `i`: Some((value, length)), where
/// value is the untruncated sum of the 7 bit groups. At most 10 bytes are read.
pub open spec fn u_varint_parse_at(s: Seq<u8>, i: int, count: nat) -> Option<(nat, nat)>
    decreases 10 - count,
{
    if count >= 10 || i < 0 || i >= s.len() {
        None
    } else if s[i] < 128 {
        Some((s[i] as nat, 1))
    } else {
        match u_varint_parse_at(s, i + 1, count + 1) {
            Some((v, l)) => Some(((s[i] - 128) as nat + 128 * v, l + 1)),
            None => None,
        }
    }
}

/// Result of reading a u-varint at `pos`: the value (mod 2^64) and the position after it.
pub open spec fn read_u_varint_spec(s: Seq<u8>, pos: int) -> Result<(u64, int), SmdiffError> {
    match u_varint_parse_at(s, pos, 0) {
        Some((v, l)) => Ok(((v % 0x1_0000_0000_0000_0000) as u64, pos + l)),
        None => if pos + 10 < s.len() {
            Err(SmdiffError::InvalidData)
        } else {
            Err(SmdiffError::UnexpectedEof)
        },
    }
}

/// Appends `s` to `out`.
pub fn push_slice(out: &mut Vec<u8>, s: &[u8])
    ensures
        final(out)@ == old(out)@ + s@,
{
    let mut i: usize = 0;
    while i < s.len()
        invariant
            i <= s.len(),
            out@ == old(out)@ + s@.subrange(0, i as int),
        decreases s.len() - i,
    {
        out.push(s[i]);
        i = i + 1;
        assert(out@ =~= old(out)@ + s@.subrange(0, i as int));
    }
    assert(s@.subrange(0, s.len() as int) =~= s@);
}

/// Write a u64 value to the writer using u-varint encoding.
pub fn write_u_varint(writer: &mut Vec<u8>, n: u64) -> (r: Result<(), SmdiffError>)
    ensures
        r is Ok,
        final(writer)@ == old(writer)@ + u_varint_bytes(n as nat),
{
    let mut n = n;
    let ghost n0 = n as nat;
    while n >= 0x80
        invariant
            writer@ + u_varint_bytes(n as nat) == old(writer)@ + u_varint_bytes(n0),
        decreases n,
    {
        let b = ((n % 128) + 128) as u8;
        let ghost pre = writer@;
        writer.push(b);
        proof {
            assert(u_varint_bytes(n as nat) == seq![b] + u_varint_bytes((n / 128) as nat));
            assert(writer@ + u_varint_bytes((n / 128) as nat) =~= pre + u_varint_bytes(n as nat));
        }
        n = n / 128;
    }
    let ghost pre = writer@;
    writer.push(n as u8);
    assert(writer@ =~= pre + u_varint_bytes(n as nat));
    Ok(())
}

/// The u-varint encoding of a value below 128^k takes at most k bytes.
pub proof fn lemma_u_varint_len(n: nat, k: nat)
    requires
        n < pow128(k),
        k >= 1,
    ensures
        1 <= u_varint_bytes(n).len() <= k,
    decreases n,
{
    if n >= 128 {
        reveal_with_fuel(pow128, 2);
        assert(pow128(k) == 128 * pow128((k - 1) as nat));
        lemma_u_varint_len(n / 128, (k - 1) as nat);
    }
}

/// Reading back a u-varint that was written gives the value and its exact length,
/// whatever follows it.
pub proof fn lemma_u_varint_roundtrip(n: nat, s: Seq<u8>, i: int, count: nat)
    requires
        0 <= i,
        n < pow128((10 - count) as nat),
        count < 10,
        i + u_varint_bytes(n).len() <= s.len(),
        s.subrange(i, i + u_varint_bytes(n).len()) == u_varint_bytes(n),
    ensures
        u_varint_parse_at(s, i, count) == Some((n, u_varint_bytes(n).len())),
    decreases n,
{
    let b = u_varint_bytes(n);
    assert(s[i] == b[0]);
    if n >= 128 {
        let rest = u_varint_bytes(n / 128);
        assert(b == seq![(n % 128 + 128) as u8] + rest);
        assert(pow128((10 - count) as nat) == 128 * pow128((10 - (count + 1)) as nat));
        assert(n / 128 < pow128((10 - (count + 1)) as nat));
        assert(s.subrange(i + 1, i + 1 + rest.len()) =~= b.subrange(1, b.len() as int));
        assert(b.subrange(1, b.len() as int) =~= rest);
        lemma_u_varint_roundtrip(n / 128, s, i + 1, count + 1);
    }
}

pub open spec fn pow128(k: nat) -> nat
    decreases k,
{
    if k == 0 {
        1
    } else {
        128 * pow128((k - 1) as nat)
    }
}

pub proof fn lemma_pow128_10()
    ensures
        pow128(10) == 0x1_0000_0000_0000_0000 * 64,
{
    reveal_with_fuel(pow128, 11);
}

/// A u64 written as a u-varint reads back as the same value.
pub proof fn lemma_u_varint_u64_roundtrip(n: u64, s: Seq<u8>, pos: int)
    requires
        0 <= pos,
        pos + u_varint_bytes(n as nat).len() <= s.len(),
        s.subrange(pos, pos + u_varint_bytes(n as nat).len()) == u_varint_bytes(n as nat),
    ensures
        read_u_varint_spec(s, pos) == Ok::<(u64, int), SmdiffError>(
            (n, pos + u_varint_bytes(n as nat).len()),
        ),
{
    lemma_pow128_10();
    lemma_u_varint_roundtrip(n as nat, s, pos, 0);
}


pub proof fn lemma_pow128_mono(a: nat, b: nat)
    requires
        a <= b,
    ensures
        1 <= pow128(a) <= pow128(b),
    decreases b,
{
    if b > 0 {
        if a == b {
            lemma_pow128_mono((a - 1) as nat, (b - 1) as nat);
        } else {
            lemma_pow128_mono(a, (b - 1) as nat);
        }
    }
}

/// No terminating byte among the remaining positions (within the 10 byte limit) means no u-varint.
proof fn lemma_u_varint_parse_none(s: Seq<u8>, start: int, c: nat)
    requires
        0 <= start,
        c <= 10,
        forall|k: int| c <= k < 10 ==> start + k >= s.len() || #[trigger] s[start + k] >= 128,
    ensures
        u_varint_parse_at(s, start + c, c) is None,
    decreases 10 - c,
{
    if c < 10 && start + c < s.len() {
        assert(s[start + c] >= 128);
        lemma_u_varint_parse_none(s, start, c + 1);
        assert(start + c + 1 == start + (c + 1));
    }
}

/// Read a u64 value from `reader` at `*pos` using u-varint decoding.
/// On success `*pos` moves past the value; on failure it is left unchanged.
pub fn read_u_varint(reader: &[u8], pos: &mut usize) -> (r: Result<u64, SmdiffError>)
    ensures
        match read_u_varint_spec(reader@, *old(pos) as int) {
            Ok((v, p)) => r == Ok::<u64, SmdiffError>(v) && *final(pos) as int == p,
            Err(e) => r == Err::<u64, SmdiffError>(e) && *final(pos) == *old(pos),
        },
{
    let start = *pos;
    let len = reader.len();
    if start >= len {
        proof {
            lemma_u_varint_parse_none(reader@, start as int, 0);
        }
        return Err(SmdiffError::UnexpectedEof);
    }
    let mut i: usize = 0;
    while i < 10 && i < len - start && reader[start + i] >= 128
        invariant
            start < len,
            len == reader@.len(),
            i <= 10,
            i <= len - start,
            forall|k: int| 0 <= k < i ==> #[trigger] reader@[start + k] >= 128,
        decreases 10 - i,
    {
        i = i + 1;
    }
    if i == 10 || i == len - start {
        proof {
            assert forall|k: int| 0 <= k < 10 implies start + k >= reader@.len() || #[trigger] reader@[start + k] >= 128 by {
                if k < i {
                    assert(reader@[start + k] >= 128);
                }
            }
            lemma_u_varint_parse_none(reader@, start as int, 0);
        }
        if i == 10 && 10 < len - start {
            return Err(SmdiffError::InvalidData);
        } else {
            return Err(SmdiffError::UnexpectedEof);
        }
    }
    let mut v: u128 = reader[start + i] as u128;
    let mut j: usize = i;
    proof {
        lemma_pow128_mono(1, 10);
        reveal_with_fuel(pow128, 2);
    }
    while j > 0
        invariant
            j <= i < 10,
            start + i < len,
            len == reader@.len(),
            forall|k: int| 0 <= k < i ==> #[trigger] reader@[start + k] >= 128,
            reader@[start + i] < 128,
            u_varint_parse_at(reader@, start + j, j as nat) == Some::<(nat, nat)>((v as nat, (i - j + 1) as nat)),
            v < pow128((i - j + 1) as nat),
        decreases j,
    {
        j = j - 1;
        let b = reader[start + j];
        assert(b >= 128);
        proof {
            lemma_pow128_mono((i - j + 1) as nat, 10);
            lemma_pow128_10();
            assert(pow128((i - j + 1) as nat) == 128 * pow128((i - j) as nat));
            assert(start + j + 1 == start + (j + 1));
        }
        v = v * 128 + (b - 128) as u128;
    }
    *pos = start + i + 1;
    Ok((v % 0x1_0000_0000_0000_0000) as u64)
}

pub open spec fn read_u8_spec(s: Seq<u8>, pos: int) -> Result<(u8, int), SmdiffError> {
    if 0 <= pos < s.len() {
        Ok((s[pos], pos + 1))
    } else {
        Err(SmdiffError::UnexpectedEof)
    }
}

/// Read a u8 value from `reader` at `*pos`.
pub fn read_u8(reader: &[u8], pos: &mut usize) -> (r: Result<u8, SmdiffError>)
    ensures
        match read_u8_spec(reader@, *old(pos) as int) {
            Ok((v, p)) => r == Ok::<u8, SmdiffError>(v) && *final(pos) as int == p,
            Err(e) => r == Err::<u8, SmdiffError>(e) && *final(pos) == *old(pos),
        },
{
    if *pos < reader.len() {
        let b = reader[*pos];
        *pos = *pos + 1;
        Ok(b)
    } else {
        Err(SmdiffError::UnexpectedEof)
    }
}

pub open spec fn read_u16_spec(s: Seq<u8>, pos: int) -> Result<(u16, int), SmdiffError> {
    if 0 <= pos && pos + 2 <= s.len() {
        Ok(((s[pos] + 256 * s[pos + 1]) as u16, pos + 2))
    } else {
        Err(SmdiffError::UnexpectedEof)
    }
}

/// Read a little-endian u16 value from `reader` at `*pos`.
pub fn read_u16(reader: &[u8], pos: &mut usize) -> (r: Result<u16, SmdiffError>)
    ensures
        match read_u16_spec(reader@, *old(pos) as int) {
            Ok((v, p)) => r == Ok::<u16, SmdiffError>(v) && *final(pos) as int == p,
            Err(e) => r == Err::<u16, SmdiffError>(e) && *final(pos) == *old(pos),
        },
{
    if *pos < reader.len() && reader.len() - *pos >= 2 {
        let lo = reader[*pos] as u16;
        let hi = reader[*pos + 1] as u16;
        *pos = *pos + 2;
        Ok(lo + 256 * hi)
    } else {
        Err(SmdiffError::UnexpectedEof)
    }
}

/// Write a u8 value to the writer.
pub fn write_u8(writer: &mut Vec<u8>, n: u8) -> (r: Result<(), SmdiffError>)
    ensures
        r is Ok,
        final(writer)@ == old(writer)@.push(n),
{
    writer.push(n);
    Ok(())
}

pub open spec fn u16_le_bytes(n: u16) -> Seq<u8> {
    seq![(n % 256) as u8, (n / 256) as u8]
}

/// Write a little-endian u16 value to the writer.
pub fn write_u16(writer: &mut Vec<u8>, n: u16) -> (r: Result<(), SmdiffError>)
    ensures
        r is Ok,
        final(writer)@ == old(writer)@ + u16_le_bytes(n),
{
    let ghost pre = writer@;
    writer.push((n % 256) as u8);
    writer.push((n / 256) as u8);
    assert(writer@ =~= pre + u16_le_bytes(n));
    Ok(())
}

/// A little-endian u16 reads back as written.
pub proof fn lemma_u16_roundtrip(n: u16, s: Seq<u8>, pos: int)
    requires
        0 <= pos,
        pos + 2 <= s.len(),
        s.subrange(pos, pos + 2) == u16_le_bytes(n),
    ensures
        read_u16_spec(s, pos) == Ok::<(u16, int), SmdiffError>((n, pos + 2)),
{
    assert(s[pos] == s.subrange(pos, pos + 2)[0]);
    assert(s[pos + 1] == s.subrange(pos, pos + 2)[1]);
}

pub open spec fn read_i_varint_spec(s: Seq<u8>, pos: int) -> Result<(i64, int), SmdiffError> {
    match read_u_varint_spec(s, pos) {
        Ok((v, p)) => Ok((unzigzag_spec(v as int) as i64, p)),
        Err(e) => Err(e),
    }
}

pub open spec fn i_varint_bytes(n: i64) -> Seq<u8> {
    u_varint_bytes(zigzag_spec(n as int) as nat)
}

/// Write an i64 value to the writer using i-varint encoding.
pub fn write_i_varint(writer: &mut Vec<u8>, n: i64) -> (r: Result<(), SmdiffError>)
    ensures
        r is Ok,
        final(writer)@ == old(writer)@ + i_varint_bytes(n),
{
    write_u_varint(writer, zigzag_encode(n))
}

/// Read an i64 value from `reader` at `*pos` using i-varint decoding.
pub fn read_i_varint(reader: &[u8], pos: &mut usize) -> (r: Result<i64, SmdiffError>)
    ensures
        match read_i_varint_spec(reader@, *old(pos) as int) {
            Ok((v, p)) => r == Ok::<i64, SmdiffError>(v) && *final(pos) as int == p,
            Err(e) => r == Err::<i64, SmdiffError>(e) && *final(pos) == *old(pos),
        },
{
    match read_u_varint(reader, pos) {
        Ok(v) => {
            proof {
                lemma_zigzag_roundtrip(0, v);
            }
            Ok(zigzag_decode(v))
        },
        Err(e) => Err(e),
    }
}

/// An i64 written as an i-varint reads back as the same value.
pub proof fn lemma_i_varint_roundtrip(n: i64, s: Seq<u8>, pos: int)
    requires
        0 <= pos,
        pos + i_varint_bytes(n).len() <= s.len(),
        s.subrange(pos, pos + i_varint_bytes(n).len()) == i_varint_bytes(n),
    ensures
        read_i_varint_spec(s, pos) == Ok::<(i64, int), SmdiffError>(
            (n, pos + i_varint_bytes(n).len()),
        ),
{
    lemma_zigzag_roundtrip(n, 0);
    let z = zigzag_spec(n as int) as u64;
    lemma_u_varint_u64_roundtrip(z, s, pos);
}

/// Helper fn to determine how many bytes a given u64 will take when encoded using u-varint.
pub fn u_varint_encode_size(n: u64) -> (r: usize)
    ensures
        r == u_varint_bytes(n as nat).len(),
        1 <= r <= 10,
{
    let mut size: usize = 1;
    let mut m = n;
    proof {
        lemma_pow128_10();
        lemma_u_varint_len(n as nat, 10);
    }
    while m >= 128
        invariant
            size + u_varint_bytes(m as nat).len() == 1 + u_varint_bytes(n as nat).len(),
            u_varint_bytes(n as nat).len() <= 10,
            1 <= size,
        decreases m,
    {
        assert(u_varint_bytes(m as nat).len() == 1 + u_varint_bytes((m / 128) as nat).len());
        proof {
            lemma_pow128_10();
            lemma_u_varint_len((m / 128) as nat, 10);
        }
        size = size + 1;
        m = m / 128;
    }
    size
}

// ---------------------------------------------------------------------------
// Address differencing
// ---------------------------------------------------------------------------
/// `x` reduced to the range of a u64.
pub open spec fn wrap_u64(x: int) -> int {
    x % 0x1_0000_0000_0000_0000
}

/// `x` reduced to the range of an i64 (two's complement).
pub open spec fn wrap_i64(x: int) -> int {
    let m = x % 0x1_0000_0000_0000_0000;
    if m >= 0x8000_0000_0000_0000 {
        m - 0x1_0000_0000_0000_0000
    } else {
        m
    }
}

/// Helper fn to 'decode' a copy address from an i64 to the actual absolute address
/// (wrapping around the u64 range).
pub fn diff_addresses_to_u64(cur: u64, input: i64) -> (r: u64)
    ensures
        r as int == wrap_u64(cur + input),
{
    if input >= 0 {
        cur.wrapping_add(input as u64)
    } else {
        let positive_i: u64 = if input == i64::MIN {
            0x8000_0000_0000_0000u64
        } else {
            (-input) as u64
        };
        cur.wrapping_sub(positive_i)
    }
}

/// Helper fn to 'encode' a copy address from an absolute position (u64) to the relative
/// difference from the last used absolute address (wrapping into the i64 range).
pub fn diff_addresses_to_i64(cur: u64, target: u64) -> (r: i64)
    ensures
        r as int == wrap_i64(target - cur),
{
    let d = target.wrapping_sub(cur);
    if d >= 0x8000_0000_0000_0000u64 {
        let back = (0xFFFF_FFFF_FFFF_FFFFu64 - d) as i64;
        -back - 1
    } else {
        d as i64
    }
}

/// The reader's address decoding undoes the writer's address encoding.
pub proof fn lemma_diff_addresses_roundtrip(cur: u64, target: u64)
    ensures
        wrap_u64(cur + wrap_i64(target - cur)) == target,
{
}

} // verus!
