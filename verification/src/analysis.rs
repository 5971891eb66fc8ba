//! Cost models and counters used when weighing encodings against each other.
use vstd::prelude::*;
use crate::common::{models, op_model, op_oal, Add, CopySrc, Op, OpModel};

verus! {

/// Byte and operation counts of a patch, by kind of operation.
#[derive(Copy, Clone, Debug, Default, PartialEq, Eq)]
pub struct Stats {
    pub add_bytes: usize,
    pub run_bytes: usize,
    pub copy_bytes: usize,
    pub add_cnt: usize,
    pub run_cnt: usize,
    pub copy_s_cnt: usize,
    pub copy_t_cnt: usize,
    pub output_size: usize,
}

impl Stats {
    /// All counts zero.
    pub fn new() -> (r: Self)
        ensures
            r == (Stats {
                add_bytes: 0,
                run_bytes: 0,
                copy_bytes: 0,
                add_cnt: 0,
                run_cnt: 0,
                copy_s_cnt: 0,
                copy_t_cnt: 0,
                output_size: 0,
            }),
    {
        Stats { add_bytes: 0, run_bytes: 0, copy_bytes: 0, add_cnt: 0, run_cnt: 0, copy_s_cnt: 0, copy_t_cnt: 0, output_size: 0 }
    }

    /// Counts an Add of `len` bytes.
    pub fn add(&mut self, len: usize)
        requires
            old(self).add_bytes + len <= usize::MAX,
            old(self).add_cnt < usize::MAX,
            old(self).output_size + len <= usize::MAX,
        ensures
            *final(self) == (Stats {
                add_bytes: (old(self).add_bytes + len) as usize,
                add_cnt: (old(self).add_cnt + 1) as usize,
                output_size: (old(self).output_size + len) as usize,
                ..*old(self)
            }),
    {
        self.add_bytes = self.add_bytes + len;
        self.add_cnt = self.add_cnt + 1;
        self.output_size = self.output_size + len;
    }

    /// Counts a Run of `len` bytes.
    pub fn run(&mut self, len: usize)
        requires
            old(self).run_bytes + len <= usize::MAX,
            old(self).run_cnt < usize::MAX,
            old(self).output_size + len <= usize::MAX,
        ensures
            *final(self) == (Stats {
                run_bytes: (old(self).run_bytes + len) as usize,
                run_cnt: (old(self).run_cnt + 1) as usize,
                output_size: (old(self).output_size + len) as usize,
                ..*old(self)
            }),
    {
        self.run_bytes = self.run_bytes + len;
        self.run_cnt = self.run_cnt + 1;
        self.output_size = self.output_size + len;
    }

    /// Counts a copy of `len` bytes from the source.
    pub fn copy_s(&mut self, len: usize)
        requires
            old(self).copy_bytes + len <= usize::MAX,
            old(self).copy_s_cnt < usize::MAX,
            old(self).output_size + len <= usize::MAX,
        ensures
            *final(self) == (Stats {
                copy_bytes: (old(self).copy_bytes + len) as usize,
                copy_s_cnt: (old(self).copy_s_cnt + 1) as usize,
                output_size: (old(self).output_size + len) as usize,
                ..*old(self)
            }),
    {
        self.copy_bytes = self.copy_bytes + len;
        self.copy_s_cnt = self.copy_s_cnt + 1;
        self.output_size = self.output_size + len;
    }

    /// Counts a copy of `len` bytes from the target.
    pub fn copy_t(&mut self, len: usize)
        requires
            old(self).copy_bytes + len <= usize::MAX,
            old(self).copy_t_cnt < usize::MAX,
            old(self).output_size + len <= usize::MAX,
        ensures
            *final(self) == (Stats {
                copy_bytes: (old(self).copy_bytes + len) as usize,
                copy_t_cnt: (old(self).copy_t_cnt + 1) as usize,
                output_size: (old(self).output_size + len) as usize,
                ..*old(self)
            }),
    {
        self.copy_bytes = self.copy_bytes + len;
        self.copy_t_cnt = self.copy_t_cnt + 1;
        self.output_size = self.output_size + len;
    }

    /// Whether any bytes are copied.
    pub fn has_copy(&self) -> (r: bool)
        ensures
            r == (self.copy_bytes > 0),
    {
        self.copy_bytes > 0
    }
}

/// Bytes needed to write an operation inline: its op byte, the extra size bytes (none up to
/// 62, one up to 317, two beyond), its address bytes and, for an Add (no address), its bytes.
pub open spec fn inline_cost_v2_spec(address_cost: u8, inst_len: u16) -> int {
    let size_indicator_cost: int = if inst_len <= 62 { 0 } else if inst_len <= 317 { 1 } else { 2 };
    let add_cost: int = if address_cost > 0 { 0 } else { inst_len as int };
    1 + size_indicator_cost + address_cost + add_cost
}

pub fn calculate_inline_cost_v2(address_cost: u8, inst_len: u16) -> (r: u32)
    ensures
        r == inline_cost_v2_spec(address_cost, inst_len),
{
    let size_indicator_cost: u32 = if inst_len <= 62 {
        0
    } else if inst_len <= 317 {
        1
    } else {
        2
    };
    let add_cost: u16 = if address_cost > 0 { 0 } else { inst_len };
    1 + size_indicator_cost + address_cost as u32 + add_cost as u32
}

/// Bytes needed to write a sequence operation: its op byte, a size byte for long patterns
/// (over 31 with an address, over 63 without), the address (or the pattern's bytes) and two
/// bytes of sequence length.
pub open spec fn seq_cost_v1_spec(address_cost: u8, pattern_len: u8) -> int {
    if address_cost > 0 {
        1 + (if pattern_len > 31 { 1int } else { 0int }) + address_cost + 2
    } else {
        1 + (if pattern_len > 63 { 1int } else { 0int }) + pattern_len + 2
    }
}

pub fn calculate_seq_cost_v1(address_cost: u8, pattern_len: u8) -> (r: u16)
    ensures
        r == seq_cost_v1_spec(address_cost, pattern_len),
{
    let seq_len_cost: u16 = 2;
    if address_cost > 0 {
        let size_indicator_cost: u16 = if pattern_len > 31 { 1 } else { 0 };
        1 + size_indicator_cost + address_cost as u16 + seq_len_cost
    } else {
        let size_indicator_cost: u16 = if pattern_len > 63 { 1 } else { 0 };
        1 + size_indicator_cost + pattern_len as u16 + seq_len_cost
    }
}

/// Bytes needed to write a sequence's bytes inline: its op byte, two size bytes for long
/// ones (over 31 with an address, over 63 without) and the address or the bytes themselves.
pub open spec fn inline_cost_v1_spec(address_cost: u8, seq_len: u16) -> int {
    if address_cost > 0 {
        1 + (if seq_len > 31 { 2int } else { 0int }) + address_cost
    } else {
        1 + (if seq_len > 63 { 2int } else { 0int }) + seq_len
    }
}

pub fn calculate_inline_cost_v1(address_cost: u8, seq_len: u16) -> (r: u32)
    ensures
        r == inline_cost_v1_spec(address_cost, seq_len),
{
    if address_cost > 0 {
        let size_indicator_cost: u32 = if seq_len > 31 { 2 } else { 0 };
        1 + size_indicator_cost + address_cost as u32
    } else {
        let size_indicator_cost: u32 = if seq_len > 63 { 2 } else { 0 };
        1 + size_indicator_cost + seq_len as u32
    }
}

/// The ways a repeated pattern can be written.
#[derive(Clone, Copy, Debug, PartialEq, Eq, Structural)]
pub enum EncodingMethod {
    CopySeq,
    AddSeq,
    CopyInline,
    AddInline,
}

impl EncodingMethod {
    /// The method's name.
    pub fn name(&self) -> (r: String)
        ensures
            r@ == match *self {
                EncodingMethod::CopySeq => "CopySeq"@,
                EncodingMethod::AddSeq => "AddSeq"@,
                EncodingMethod::CopyInline => "CopyInline"@,
                EncodingMethod::AddInline => "AddInline"@,
            },
    {
        match self {
            EncodingMethod::CopySeq => String::from_str("CopySeq"),
            EncodingMethod::AddSeq => String::from_str("AddSeq"),
            EncodingMethod::CopyInline => String::from_str("CopyInline"),
            EncodingMethod::AddInline => String::from_str("AddInline"),
        }
    }
}

/// The costs of the four ways of writing a pattern, and the cheapest.
#[derive(Clone, Copy, Debug)]
pub struct EncodingResult {
    pub pattern_len: u8,
    pub seq_len: u16,
    pub address_cost: u8,
    pub seq_cost_copy: u32,
    pub seq_cost_add: u32,
    pub inline_cost_copy: u32,
    pub inline_cost_add: u32,
    pub best_method: EncodingMethod,
    pub min_cost: u32,
}

/// The cheapest of the four costs; on a tie an inline method wins over a sequence, and
/// otherwise the earlier one (CopySeq, AddSeq, CopyInline, AddInline) wins.
pub open spec fn best_spec(seq_copy: u32, seq_add: u32, inline_copy: u32, inline_add: u32) -> (u32, EncodingMethod) {
    let (c1, m1) = if inline_add < inline_copy { (inline_add, EncodingMethod::AddInline) } else { (inline_copy, EncodingMethod::CopyInline) };
    let (c2, m2) = if seq_add < seq_copy { (seq_add, EncodingMethod::AddSeq) } else { (seq_copy, EncodingMethod::CopySeq) };
    if c2 < c1 { (c2, m2) } else { (c1, m1) }
}

impl EncodingResult {
    pub fn new(
        pattern_len: u8,
        seq_len: u16,
        address_cost: u8,
        seq_cost_copy: u32,
        seq_cost_add: u32,
        inline_cost_copy: u32,
        inline_cost_add: u32,
    ) -> (r: Self)
        ensures
            r.pattern_len == pattern_len,
            r.seq_len == seq_len,
            r.address_cost == address_cost,
            r.seq_cost_copy == seq_cost_copy,
            r.seq_cost_add == seq_cost_add,
            r.inline_cost_copy == inline_cost_copy,
            r.inline_cost_add == inline_cost_add,
            (r.min_cost, r.best_method) == best_spec(seq_cost_copy, seq_cost_add, inline_cost_copy, inline_cost_add),
    {
        let (c1, m1) = if inline_cost_add < inline_cost_copy {
            (inline_cost_add, EncodingMethod::AddInline)
        } else {
            (inline_cost_copy, EncodingMethod::CopyInline)
        };
        let (c2, m2) = if seq_cost_add < seq_cost_copy {
            (seq_cost_add, EncodingMethod::AddSeq)
        } else {
            (seq_cost_copy, EncodingMethod::CopySeq)
        };
        let (min_cost, best_method) = if c2 < c1 { (c2, m2) } else { (c1, m1) };
        EncodingResult {
            pattern_len,
            seq_len,
            address_cost,
            seq_cost_copy,
            seq_cost_add,
            inline_cost_copy,
            inline_cost_add,
            best_method,
            min_cost,
        }
    }
}

// ---------------------------------------------------------------------------
// What a section's operations add up to
// ---------------------------------------------------------------------------
/// The output bytes of the operations, each counted by its recorded length.
pub open spec fn total_oal(ops: Seq<OpModel>) -> nat
    decreases ops.len(),
{
    if ops.len() == 0 {
        0
    } else {
        total_oal(ops.drop_last()) + op_oal(ops.last())
    }
}

/// The counts of the operations, in order, from `st`: Adds, Runs, copies from the source
/// and copies from the target.
pub open spec fn stats_of(st: Stats, ops: Seq<OpModel>) -> Stats
    decreases ops.len(),
{
    if ops.len() == 0 {
        st
    } else {
        let s = stats_of(st, ops.drop_last());
        let op = ops.last();
        let len = op_oal(op);
        match op {
            OpModel::Add(_) => Stats {
                add_bytes: (s.add_bytes + len) as usize,
                add_cnt: (s.add_cnt + 1) as usize,
                output_size: (s.output_size + len) as usize,
                ..s
            },
            OpModel::Run(_) => Stats {
                run_bytes: (s.run_bytes + len) as usize,
                run_cnt: (s.run_cnt + 1) as usize,
                output_size: (s.output_size + len) as usize,
                ..s
            },
            OpModel::Copy(c) => if c.src is Dict {
                Stats {
                    copy_bytes: (s.copy_bytes + len) as usize,
                    copy_s_cnt: (s.copy_s_cnt + 1) as usize,
                    output_size: (s.output_size + len) as usize,
                    ..s
                }
            } else {
                Stats {
                    copy_bytes: (s.copy_bytes + len) as usize,
                    copy_t_cnt: (s.copy_t_cnt + 1) as usize,
                    output_size: (s.output_size + len) as usize,
                    ..s
                }
            },
        }
    }
}

proof fn lemma_stats_bounds(ops: Seq<OpModel>)
    requires
        total_oal(ops) <= usize::MAX,
        ops.len() <= usize::MAX,
    ensures
        ({
            let s = stats_of(Stats::zero(), ops);
            &&& s.add_bytes + s.run_bytes + s.copy_bytes == total_oal(ops)
            &&& s.output_size == total_oal(ops)
            &&& s.add_cnt + s.run_cnt + s.copy_s_cnt + s.copy_t_cnt == ops.len()
        }),
    decreases ops.len(),
{
    if ops.len() > 0 {
        lemma_stats_bounds(ops.drop_last());
    }
}

impl Stats {
    /// All counts zero.
    pub open spec fn zero() -> Stats {
        Stats { add_bytes: 0, run_bytes: 0, copy_bytes: 0, add_cnt: 0, run_cnt: 0, copy_s_cnt: 0, copy_t_cnt: 0, output_size: 0 }
    }
}

/// The counts of a section's operations.
pub fn section_stats(ops: &[Op<Add>]) -> (r: Stats)
    requires
        total_oal(models(ops@)) <= usize::MAX,
    ensures
        r == stats_of(Stats::zero(), models(ops@)),
{
    let ghost m = models(ops@);
    let mut stats = Stats::new();
    let mut i: usize = 0;
    while i < ops.len()
        invariant
            i <= ops@.len(),
            m == models(ops@),
            total_oal(m) <= usize::MAX,
            stats == stats_of(Stats::zero(), m.subrange(0, i as int)),
        decreases ops@.len() - i,
    {
        let op = &ops[i];
        let len = op.oal() as usize;
        proof {
            let pre = m.subrange(0, i as int);
            let next = m.subrange(0, i + 1);
            assert(next.drop_last() =~= pre);
            assert(next.last() == op_model(*op));
            lemma_total_prefix(m, i + 1);
            lemma_stats_bounds(pre);
            lemma_total_prefix(next, i as int);
            assert(next.subrange(0, i as int) =~= pre);
        }
        match op {
            Op::Add(_) => stats.add(len),
            Op::Run(_) => stats.run(len),
            Op::Copy(copy) => {
                if matches!(copy.src, CopySrc::Dict) {
                    stats.copy_s(len);
                } else {
                    stats.copy_t(len);
                }
            },
        }
        i = i + 1;
    }
    proof {
        assert(m.subrange(0, ops@.len() as int) =~= m);
    }
    stats
}

proof fn lemma_total_prefix(ops: Seq<OpModel>, n: int)
    requires
        0 <= n <= ops.len(),
    ensures
        total_oal(ops.subrange(0, n)) <= total_oal(ops),
    decreases ops.len() - n,
{
    if n < ops.len() {
        lemma_total_prefix(ops, n + 1);
        let next = ops.subrange(0, n + 1);
        assert(next.drop_last() =~= ops.subrange(0, n));
    } else {
        assert(ops.subrange(0, n) =~= ops);
    }
}

/// The number of copies from the source, among `ops`, that are `len` bytes long.
pub open spec fn dict_copy_count(ops: Seq<OpModel>, len: u16) -> nat
    decreases ops.len(),
{
    if ops.len() == 0 {
        0
    } else {
        dict_copy_count(ops.drop_last(), len) + if ops.last() matches OpModel::Copy(c) && c.src is Dict && op_oal(ops.last())
            == len {
            1nat
        } else {
            0nat
        }
    }
}

/// The lengths of the copies from the source, each once, in increasing order, with the
/// number of copies of that length.
pub open spec fn is_len_histogram(h: Seq<(u16, usize)>, ops: Seq<OpModel>) -> bool {
    &&& forall|i: int, j: int| 0 <= i < j < h.len() ==> h[i].0 < h[j].0
    &&& forall|i: int| 0 <= i < h.len() ==> h[i].1 == dict_copy_count(ops, #[trigger] h[i].0) && h[i].1 > 0
    &&& forall|len: u16| dict_copy_count(ops, len) > 0 ==> exists|i: int| 0 <= i < h.len() && #[trigger] h[i].0 == len
}

proof fn lemma_dict_copy_count_le(ops: Seq<OpModel>, len: u16)
    ensures
        dict_copy_count(ops, len) <= ops.len(),
    decreases ops.len(),
{
    if ops.len() > 0 {
        lemma_dict_copy_count_le(ops.drop_last(), len);
    }
}

/// How many copies from the source there are of each length, in increasing order of length.
pub fn dict_copy_lens(ops: &[Op<Add>]) -> (r: Vec<(u16, usize)>)
    ensures
        is_len_histogram(r@, models(ops@)),
{
    let ghost m = models(ops@);
    let mut hist: Vec<(u16, usize)> = Vec::new();
    let mut i: usize = 0;
    while i < ops.len()
        invariant
            i <= ops@.len(),
            m == models(ops@),
            is_len_histogram(hist@, m.subrange(0, i as int)),
        decreases ops@.len() - i,
    {
        let op = &ops[i];
        let ghost pre = m.subrange(0, i as int);
        let ghost next = m.subrange(0, i + 1);
        proof {
            assert(next.drop_last() =~= pre);
            assert(next.last() == op_model(*op));
        }
        let is_dict = match op {
            Op::Copy(copy) => matches!(copy.src, CopySrc::Dict),
            _ => false,
        };
        if is_dict {
            let len = op.oal();
            let mut k: usize = 0;
            while k < hist.len() && hist[k].0 < len
                invariant
                    k <= hist@.len(),
                    forall|j: int| 0 <= j < k ==> hist@[j].0 < len,
                decreases hist@.len() - k,
            {
                k = k + 1;
            }
            let ghost old_hist = hist@;
            proof {
                lemma_dict_copy_count_le(pre, len);
                assert forall|l: u16| l != len implies dict_copy_count(next, l) == dict_copy_count(pre, l) by {}
                assert(dict_copy_count(next, len) == dict_copy_count(pre, len) + 1);
            }
            if k < hist.len() && hist[k].0 == len {
                let c = hist[k].1;
                proof {
                    assert(c == dict_copy_count(pre, len));
                    assert(c <= pre.len());
                }
                hist.set(k, (len, c + 1));
                proof {
                    assert forall|l: u16| dict_copy_count(next, l) > 0 implies exists|j: int| 0 <= j < hist@.len() && #[trigger] hist@[j].0 == l by {
                        if l == len {
                            assert(hist@[k as int].0 == l);
                        } else {
                            let j = choose|j: int| 0 <= j < old_hist.len() && #[trigger] old_hist[j].0 == l;
                            assert(hist@[j].0 == l);
                        }
                    }
                    assert forall|j: int| 0 <= j < hist@.len() implies hist@[j].1 == dict_copy_count(next, #[trigger] hist@[j].0) && hist@[j].1 > 0 by {
                        if j != k {
                            assert(hist@[j] == old_hist[j]);
                            if old_hist[j].0 == len {
                                assert(old_hist[k as int].0 == len);
                                if j < k {
                                    assert(old_hist[j].0 < old_hist[k as int].0);
                                } else {
                                    assert(old_hist[k as int].0 < old_hist[j].0);
                                }
                            }
                        }
                    }
                }
            } else {
                hist.insert(k, (len, 1));
                proof {
                    assert forall|j: int| 0 <= j < k implies hist@[j] == old_hist[j] by {}
                    assert forall|j: int| k < j < hist@.len() implies hist@[j] == old_hist[j - 1] by {}
                    assert(hist@[k as int] == (len, 1usize));
                    assert forall|j: int| k <= j < old_hist.len() implies len < #[trigger] old_hist[j].0 by {
                        assert(old_hist[k as int].0 != len);
                        assert(!(old_hist[k as int].0 < len));
                        if j > k {
                            assert(old_hist[k as int].0 < old_hist[j].0);
                        }
                    }
                    assert(dict_copy_count(pre, len) == 0) by {
                        if dict_copy_count(pre, len) > 0 {
                            let j = choose|j: int| 0 <= j < old_hist.len() && #[trigger] old_hist[j].0 == len;
                            if j < k {
                                assert(old_hist[j].0 < len);
                            }
                        }
                    }
                    assert forall|a: int, b: int| 0 <= a < b < hist@.len() implies hist@[a].0 < hist@[b].0 by {
                        if b < k {
                        } else if b == k {
                            assert(old_hist[a].0 < len);
                        } else if a < k {
                            assert(old_hist[a].0 < len);
                            assert(len < old_hist[b - 1].0);
                        } else if a == k {
                            assert(len < old_hist[b - 1].0);
                        } else {
                            assert(old_hist[a - 1].0 < old_hist[b - 1].0);
                        }
                    }
                    assert forall|j: int| 0 <= j < hist@.len() implies hist@[j].1 == dict_copy_count(next, #[trigger] hist@[j].0) && hist@[j].1 > 0 by {
                        if j < k {
                            assert(old_hist[j].0 < len);
                        } else if j > k {
                            assert(len < old_hist[j - 1].0);
                        }
                    }
                    assert forall|l: u16| dict_copy_count(next, l) > 0 implies exists|j: int| 0 <= j < hist@.len() && #[trigger] hist@[j].0 == l by {
                        if l == len {
                            assert(hist@[k as int].0 == l);
                        } else {
                            let j = choose|j: int| 0 <= j < old_hist.len() && #[trigger] old_hist[j].0 == l;
                            if j < k {
                                assert(hist@[j].0 == l);
                            } else {
                                assert(hist@[j + 1].0 == l);
                            }
                        }
                    }
                }
            }
        } else {
            proof {
                assert forall|l: u16| dict_copy_count(next, l) == dict_copy_count(pre, l) by {}
            }
        }
        i = i + 1;
    }
    proof {
        assert(m.subrange(0, ops@.len() as int) =~= m);
    }
    hist
}

/// The first position at which `a` and `b` differ, within the shorter of the two; None if
/// one is a prefix of the other.
pub fn first_mismatch(a: &[u8], b: &[u8]) -> (r: Option<usize>)
    ensures
        match r {
            Some(i) => i < a@.len() && i < b@.len() && a@[i as int] != b@[i as int] && forall|j: int| 0 <= j < i ==> a@[j] == b@[j],
            None => forall|j: int| 0 <= j < a@.len() && j < b@.len() ==> a@[j] == b@[j],
        },
{
    let n = if a.len() < b.len() { a.len() } else { b.len() };
    let mut i: usize = 0;
    while i < n
        invariant
            i <= n,
            n <= a@.len(),
            n <= b@.len(),
            n == a@.len() || n == b@.len(),
            forall|j: int| 0 <= j < i ==> a@[j] == b@[j],
        decreases n - i,
    {
        if a[i] != b[i] {
            return Some(i);
        }
        i = i + 1;
    }
    None
}

} // verus!
