//! Finds the matches (source copies, target copies and runs) that can produce the
//! target. The matches it returns may overlap; they are ordered by output position.
use vstd::prelude::*;
use crate::encoder::hasher::{calculate_large_checksum, calculate_small_checksum, large_checksum, small_checksum, large_fwd, small_fwd, update_large_checksum_fwd, update_small_checksum_fwd};
use crate::encoder::src_matcher::{add_start_positions_to_matcher, match_back_len, next_hash_after, slots_after_adding, src_built, src_extension, SrcMatcher, SrcMatcherConfig};
use crate::encoder::trgt_matcher::{capacity_ok, match_forward, match_len, trgt_built, trgt_match_ok, TrgtMatcher, TrgtMatcherConfig};

verus! {

/// Which cheap whole-source tests to run first when the target is larger than the source.
#[derive(Copy, Clone, Debug, PartialEq, Eq, Structural)]
pub enum LargerTrgtNaiveTests {
    Prepend,
    Append,
    PrependAppend,
    AppendPrepend,
}

impl Default for LargerTrgtNaiveTests {
    fn default() -> (r: Self)
        ensures
            r == LargerTrgtNaiveTests::AppendPrepend,
    {
        LargerTrgtNaiveTests::AppendPrepend
    }
}

/// A match found by the encoder: bytes of the target at `o_pos` that a source range, an
/// earlier target range or a run of one byte produces.
#[derive(Copy, Clone, Debug, PartialEq, Eq, Structural)]
pub enum InnerOp {
    MatchSrc { start: usize, length: usize, o_pos: usize },
    MatchTrgt { start: usize, length: usize, o_pos: usize },
    Run { byte: u8, length: usize, o_pos: usize },
}

/// The output position of a match.
pub open spec fn op_pos(op: InnerOp) -> int {
    match op {
        InnerOp::MatchSrc { o_pos, .. } => o_pos as int,
        InnerOp::MatchTrgt { o_pos, .. } => o_pos as int,
        InnerOp::Run { o_pos, .. } => o_pos as int,
    }
}

/// The length of a match.
pub open spec fn op_length(op: InnerOp) -> int {
    match op {
        InnerOp::MatchSrc { length, .. } => length as int,
        InnerOp::MatchTrgt { length, .. } => length as int,
        InnerOp::Run { length, .. } => length as int,
    }
}

/// Where a match ends in the output (exclusive).
pub open spec fn op_end(op: InnerOp) -> int {
    op_pos(op) + op_length(op)
}

/// The match really produces the target bytes it covers.
pub open spec fn inner_valid(op: InnerOp, src: Seq<u8>, trgt: Seq<u8>) -> bool {
    match op {
        InnerOp::MatchSrc { start, length, o_pos } => start + length <= src.len() && o_pos + length <= trgt.len()
            && src.subrange(start as int, start + length) == trgt.subrange(o_pos as int, o_pos + length),
        InnerOp::MatchTrgt { start, length, o_pos } => trgt_match_ok(trgt, start as int, o_pos as int, length as int),
        InnerOp::Run { byte, length, o_pos } => o_pos + length <= trgt.len()
            && forall|i: int| o_pos <= i < o_pos + length ==> trgt[i] == byte,
    }
}

/// All matches are valid and ordered by output position.
pub open spec fn inner_ops_ok(ops: Seq<InnerOp>, src: Seq<u8>, trgt: Seq<u8>) -> bool {
    &&& forall|i: int| 0 <= i < ops.len() ==> inner_valid(#[trigger] ops[i], src, trgt)
    &&& forall|i: int, j: int| 0 <= i < j < ops.len() ==> op_pos(ops[i]) <= op_pos(ops[j])
}

impl InnerOp {
    pub fn o_pos(&self) -> (r: usize)
        ensures
            r == op_pos(*self),
    {
        match self {
            InnerOp::MatchSrc { o_pos, .. } => *o_pos,
            InnerOp::MatchTrgt { o_pos, .. } => *o_pos,
            InnerOp::Run { o_pos, .. } => *o_pos,
        }
    }

    pub fn len(&self) -> (r: usize)
        ensures
            r == op_length(*self),
    {
        match self {
            InnerOp::MatchSrc { length, .. } => *length,
            InnerOp::MatchTrgt { length, .. } => *length,
            InnerOp::Run { length, .. } => *length,
        }
    }

    /// Shortens the match (from its end).
    pub fn set_len(&mut self, new_len: usize)
        requires
            new_len <= op_length(*old(self)),
        ensures
            *final(self) == (match *old(self) {
                InnerOp::MatchSrc { start, o_pos, .. } => InnerOp::MatchSrc { start, length: new_len, o_pos },
                InnerOp::MatchTrgt { start, o_pos, .. } => InnerOp::MatchTrgt { start, length: new_len, o_pos },
                InnerOp::Run { byte, o_pos, .. } => InnerOp::Run { byte, length: new_len, o_pos },
            }),
    {
        match self {
            InnerOp::MatchSrc { length, .. } => *length = new_len,
            InnerOp::MatchTrgt { length, .. } => *length = new_len,
            InnerOp::Run { length, .. } => *length = new_len,
        }
    }

    /// Moves the start of the match to `new_pos`, keeping its end.
    pub fn set_o_pos(&mut self, new_pos: usize)
        requires
            op_pos(*old(self)) <= new_pos <= op_pos(*old(self)) + op_length(*old(self)),
            *old(self) matches InnerOp::MatchSrc { start, .. } ==> start + new_pos - op_pos(*old(self)) <= usize::MAX,
            *old(self) matches InnerOp::MatchTrgt { start, .. } ==> start + new_pos - op_pos(*old(self)) <= usize::MAX,
        ensures
            *final(self) == (match *old(self) {
                InnerOp::MatchSrc { start, length, o_pos } => InnerOp::MatchSrc {
                    start: (start + new_pos - o_pos) as usize, length: (length - (new_pos - o_pos)) as usize, o_pos: new_pos },
                InnerOp::MatchTrgt { start, length, o_pos } => InnerOp::MatchTrgt {
                    start: (start + new_pos - o_pos) as usize, length: (length - (new_pos - o_pos)) as usize, o_pos: new_pos },
                InnerOp::Run { byte, length, o_pos } => InnerOp::Run { byte, length: (length - (new_pos - o_pos)) as usize, o_pos: new_pos },
            }),
    {
        let cur_pos = self.o_pos();
        let diff = new_pos - cur_pos;
        match self {
            InnerOp::MatchSrc { start, length, o_pos } => {
                *start = *start + diff;
                *o_pos = new_pos;
                *length = *length - diff;
            },
            InnerOp::MatchTrgt { start, length, o_pos } => {
                *start = *start + diff;
                *o_pos = new_pos;
                *length = *length - diff;
            },
            InnerOp::Run { length, o_pos, .. } => {
                *o_pos = new_pos;
                *length = *length - diff;
            },
        }
    }
}

/// Where the run of `b` that continues at `i` ends: the first position from `i` on that
/// holds another byte, or the end of `trgt`.
pub open spec fn run_end(trgt: Seq<u8>, i: int, b: u8) -> int
    decreases trgt.len() - i,
{
    if 0 <= i < trgt.len() && trgt[i] == b {
        run_end(trgt, i + 1, b)
    } else {
        i
    }
}

/// The length of the run of equal bytes that ends `seg[..n]`.
pub open spec fn trailing_run(seg: Seq<u8>, n: int, r: int) -> bool {
    &&& 1 <= r <= n
    &&& forall|k: int| 0 <= k < r ==> #[trigger] seg[n - 1 - k] == seg[n - 1]
    &&& r < n ==> seg[n - 1 - r] != seg[n - 1]
}

/// The length of the run of equal bytes that ends the first `match_len` bytes of `seg`;
/// `run_byte` becomes its byte.
pub fn find_initial_run_len(seg: &[u8], match_len: usize, run_byte: &mut u8) -> (r: usize)
    requires
        1 <= match_len <= seg@.len(),
    ensures
        trailing_run(seg@, match_len as int, r as int),
        *final(run_byte) == seg@[match_len - 1],
{
    let mut run_len: usize = 0;
    let mut last_byte = *run_byte;
    let mut i: usize = 0;
    while i < match_len
        invariant
            i <= match_len <= seg@.len(),
            i == 0 ==> run_len == 0,
            i > 0 ==> last_byte == seg@[i - 1] && trailing_run(seg@, i as int, run_len as int),
        decreases match_len - i,
    {
        let next_char = seg[i];
        if i > 0 && last_byte == next_char {
            run_len = run_len + 1;
        } else {
            run_len = 1;
            last_byte = next_char;
        }
        proof {
            assert forall|k: int| 0 <= k < run_len implies #[trigger] seg@[i + 1 - 1 - k] == seg@[i as int] by {
                if k > 0 {
                    assert(seg@[i - 1 - (k - 1)] == seg@[i - 1]);
                }
            }
        }
        i = i + 1;
    }
    *run_byte = last_byte;
    run_len
}

/// `ops` without its trailing matches that start at or after `gte`.
pub open spec fn ops_before(ops: Seq<InnerOp>, gte: int) -> Seq<InnerOp>
    decreases ops.len(),
{
    if ops.len() > 0 && op_pos(ops.last()) >= gte {
        ops_before(ops.drop_last(), gte)
    } else {
        ops
    }
}

/// Removes the trailing matches that start at or after `gte_start`.
pub fn clear_existing_ops(ops: &mut Vec<InnerOp>, gte_start: usize)
    ensures
        final(ops)@ == ops_before(old(ops)@, gte_start as int),
        exists|k: int| 0 <= k <= old(ops)@.len() && final(ops)@ == old(ops)@.subrange(0, k)
            && (k > 0 ==> op_pos(old(ops)@[k - 1]) < gte_start)
            && forall|i: int| k <= i < old(ops)@.len() ==> op_pos(#[trigger] old(ops)@[i]) >= gte_start,
{
    let ghost o = ops@;
    loop
        invariant
            ops@.len() <= o.len(),
            ops@ == o.subrange(0, ops@.len() as int),
            o == old(ops)@,
            forall|i: int| ops@.len() <= i < o.len() ==> op_pos(#[trigger] o[i]) >= gte_start,
            ops_before(ops@, gte_start as int) == ops_before(o, gte_start as int),
        ensures
            ops@ == ops_before(o, gte_start as int),
            ops@.len() <= o.len(),
            ops@ == o.subrange(0, ops@.len() as int),
            forall|i: int| ops@.len() <= i < o.len() ==> op_pos(#[trigger] o[i]) >= gte_start,
            ops@.len() > 0 ==> op_pos(o[ops@.len() - 1]) < gte_start,
        decreases ops@.len(),
    {
        let n = ops.len();
        if n == 0 {
            break;
        }
        if ops[n - 1].o_pos() < gte_start {
            break;
        }
        let ghost before = ops@;
        let _evicted = ops.pop();
        proof {
            assert(ops@ =~= o.subrange(0, ops@.len() as int));
            assert(ops@ =~= before.drop_last());
        }
    }
    proof {
        let k = ops@.len() as int;
        assert(k > 0 ==> op_pos(old(ops)@[k - 1]) < gte_start);
    }
}

/// The encoder's settings.
#[derive(Debug, Clone, Copy)]
pub struct GenericEncoderConfig {
    pub match_trgt: Option<TrgtMatcherConfig>,
    pub match_src: Option<SrcMatcherConfig>,
    /// If the current match is less than lazy_escape_len it steps byte by byte looking for more matches.
    pub lazy_escape_len: Option<usize>,
    pub naive_tests: Option<LargerTrgtNaiveTests>,
}

impl GenericEncoderConfig {
    pub fn new(match_trgt: Option<TrgtMatcherConfig>, match_src: Option<SrcMatcherConfig>, naive_tests: Option<LargerTrgtNaiveTests>, lazy_escape_len: Option<usize>) -> (r: Self)
        ensures
            r == (GenericEncoderConfig { match_trgt, match_src, lazy_escape_len, naive_tests }),
    {
        GenericEncoderConfig { match_trgt, match_src, naive_tests, lazy_escape_len }
    }

    /// The matcher settings are ones the matchers can be built with.
    pub open spec fn buildable(&self) -> bool {
        &&& self.match_src matches Some(m) ==> (m.max_src_win_size matches Some(s) ==> s <= usize::MAX / 4)
        &&& self.match_trgt matches Some(m) ==> (m.prev_table_capacity matches Some(c) ==> capacity_ok(c))
    }
}

impl Default for GenericEncoderConfig {
    fn default() -> (r: Self)
        ensures
            r.match_trgt is None,
            r.match_src matches Some(m) && m.max_src_win_size is None,
            r.naive_tests == Some(LargerTrgtNaiveTests::Append),
            r.lazy_escape_len == Some(45usize),
    {
        GenericEncoderConfig {
            match_trgt: None,
            match_src: Some(SrcMatcherConfig::comp_level(3)),
            naive_tests: Some(LargerTrgtNaiveTests::Append),
            lazy_escape_len: Some(45),
        }
    }
}

/// Where the encoder is.
pub enum EncoderState {
    StartNewMatch,
    TryMatch,
    FoundMatch { match_len: usize },
    MoveForwardOneByte,
}

/// The state of the main loop: the matches found, the current position, where the matched
/// part ends, the least length a match must have, the run of `run_byte` being counted and
/// the matchers.
pub struct EncodeLoop {
    pub ops: Vec<InnerOp>,
    pub cur_o_pos: usize,
    pub max_trgt_match_len: usize,
    pub min_match: usize,
    pub run_len: usize,
    pub run_byte: u8,
    pub src_matcher: Option<SrcMatcher>,
    pub trgt_matcher: Option<TrgtMatcher>,
}

/// The smallest match the encoder takes.
pub const MIN_MATCH_VALUE: usize = 4;

/// The least length a match at `cur` must have to reach past the last match of `ops`.
pub open spec fn min_match_at(ops: Seq<InnerOp>, cur: int) -> usize {
    let last_end = if ops.len() > 0 { op_end(ops.last()) } else { 0 };
    if last_end > cur {
        if 1 + last_end - cur > MIN_MATCH_VALUE { (1 + last_end - cur) as usize } else { MIN_MATCH_VALUE }
    } else {
        MIN_MATCH_VALUE
    }
}

/// The large checksum rolled forward over the target from `from` to `to`, while 9 bytes
/// follow.
pub open spec fn roll_large(h: u64, trgt: Seq<u8>, from: int, to: int) -> u64
    decreases to - from,
{
    if from < to && from + 9 < trgt.len() {
        roll_large(large_fwd(h, trgt[from], trgt[from + 9]), trgt, from + 1, to)
    } else {
        h
    }
}

/// The source matcher's forward hash brought to `cur`: rolled from where it stands when that
/// is less than 9 bytes back, else computed afresh (over the bytes left, up to 9); kept once
/// it reached the last position that can be hashed.
pub open spec fn src_hash_at(m: SrcMatcher, cur: int, trgt: Seq<u8>) -> u64 {
    if m.fwd_pos < m.max_fwd_hash_pos {
        if m.fwd_pos + 9 > cur {
            roll_large(m.fwd_hash, trgt, m.fwd_pos as int, cur)
        } else {
            large_checksum(trgt.subrange(cur, if cur + 9 <= trgt.len() { cur + 9 } else { trgt.len() as int }))
        }
    } else {
        m.fwd_hash
    }
}

/// `b` is the source matcher `a` prepared for a new match at `cur`: the positions due are
/// hashed into its table and its forward hash is brought to `cur`.
pub open spec fn src_prepared(a: SrcMatcher, b: SrcMatcher, cur: int, src: Seq<u8>, trgt: Seq<u8>) -> bool {
    &&& b.table.slots() == slots_after_adding(a, cur, src)
    &&& forall|h: u64| #[trigger] b.table.slot_of(h) == a.table.slot_of(h)
    &&& b == (SrcMatcher {
        table: b.table,
        next_hash_pos: next_hash_after(a, cur),
        fwd_hash: src_hash_at(a, cur, trgt),
        fwd_pos: if a.fwd_pos < a.max_fwd_hash_pos { cur as usize } else { a.fwd_pos },
        ..a
    })
}

/// The small checksum rolled forward over the target from `from` to `to`, while 4 bytes
/// follow.
pub open spec fn roll_small(h: u32, trgt: Seq<u8>, from: int, to: int) -> u32
    decreases to - from,
{
    if from < to && from + 4 < trgt.len() {
        roll_small(small_fwd(h, trgt[from], trgt[from + 4]), trgt, from + 1, to)
    } else {
        h
    }
}

/// The target matcher prepared for a new match at `cur`: its hash rolled from where it stands
/// when that is less than 4 bytes back, else computed afresh over the 4 bytes at `cur`; kept
/// once it reached the last position that can be hashed.
pub open spec fn trgt_prepared(m: TrgtMatcher, cur: int, trgt: Seq<u8>) -> TrgtMatcher {
    if m.fwd_pos < m.max_fwd_hash_pos {
        TrgtMatcher {
            fwd_hash: if m.fwd_pos + 4 > cur {
                roll_small(m.fwd_hash, trgt, m.fwd_pos as int, cur)
            } else {
                small_checksum(trgt.subrange(cur, cur + 4))
            },
            fwd_pos: cur as usize,
            ..m
        }
    } else {
        m
    }
}

/// `n` is the target matcher `m` after a move forward from `cur`: `cur` is stored under the
/// current hash, and the hash rolls one byte while the window fits.
pub open spec fn trgt_stepped(m: TrgtMatcher, n: TrgtMatcher, cur: int, trgt: Seq<u8>) -> bool {
    &&& m.stored(n, m.fwd_hash as u64, cur as usize)
    &&& n == (if m.fwd_pos < m.max_fwd_hash_pos {
        TrgtMatcher { table: n.table, chain: n.chain, fwd_hash: small_fwd(m.fwd_hash, trgt[cur], trgt[cur + 4]), fwd_pos: (cur + 1) as usize, ..m }
    } else {
        TrgtMatcher { table: n.table, chain: n.chain, ..m }
    })
}

/// The source matcher after a move forward from `cur`: its hash rolls one byte while the
/// window fits the target.
pub open spec fn src_stepped(m: SrcMatcher, cur: int, trgt: Seq<u8>) -> SrcMatcher {
    if m.fwd_pos < m.max_fwd_hash_pos && cur + 9 < trgt.len() {
        SrcMatcher { fwd_hash: large_fwd(m.fwd_hash, trgt[cur], trgt[cur + 9]), fwd_pos: (cur + 1) as usize, ..m }
    } else {
        m
    }
}

impl EncodeLoop {
    /// What holds between steps: the matches found are valid and ordered, none starts after
    /// the current position, the run counter describes the bytes before `cur_o_pos + 4`
    /// (unless `fresh`: it is about to be recomputed), and the matchers are usable.
    spec fn inv(&self, src: Seq<u8>, trgt: Seq<u8>, fresh: bool) -> bool {
        &&& inner_ops_ok(self.ops@, src, trgt)
        &&& forall|i: int| 0 <= i < self.ops@.len() ==> op_pos(#[trigger] self.ops@[i]) <= self.cur_o_pos
            && op_pos(self.ops@[i]) < self.max_trgt_match_len && op_length(self.ops@[i]) >= 1
            && (self.ops@[i] is Run ==> op_length(self.ops@[i]) >= MIN_MATCH_VALUE)
            && (self.ops@[i] matches InnerOp::Run { byte, length, o_pos } ==> length == run_end(trgt, o_pos as int, byte) - o_pos)
        &&& self.cur_o_pos <= trgt.len()
        &&& self.max_trgt_match_len <= trgt.len()
        &&& trgt.len() < usize::MAX / 2
        &&& self.min_match >= MIN_MATCH_VALUE
        &&& self.run_len <= self.cur_o_pos + trgt.len()
        &&& !fresh ==> self.run_len >= 1
        &&& !fresh && self.cur_o_pos + MIN_MATCH_VALUE < self.max_trgt_match_len ==> (self.run_len <= MIN_MATCH_VALUE ==>
            forall|k: int| 0 <= k < self.run_len ==> #[trigger] trgt[self.cur_o_pos + 3 - k] == self.run_byte)
        &&& self.src_matcher matches Some(m) ==> m.wf() && m.src_len == src.len() && m.trgt_len == trgt.len() && m.trgt_len > 0
            && m.max_fwd_hash_pos <= trgt.len()
        &&& self.trgt_matcher matches Some(m) ==> m.wf() && m.max_fwd_hash_pos <= trgt.len()
    }

    /// Prepares a new match at the current position: counts the run before `cur_o_pos + 4`,
    /// hashes more source positions if due, brings both matchers' hashes to the current
    /// position, and sets the least match length that would extend past the last match.
    fn start_new_match(&mut self, src: &[u8], trgt: &[u8])
        requires
            old(self).inv(src@, trgt@, true),
            old(self).cur_o_pos + MIN_MATCH_VALUE < old(self).max_trgt_match_len,
        ensures
            final(self).inv(src@, trgt@, false),
            final(self).cur_o_pos == old(self).cur_o_pos,
            final(self).max_trgt_match_len == old(self).max_trgt_match_len,
            final(self).ops == old(self).ops,
            final(self).run_byte == trgt@[old(self).cur_o_pos + 3],
            trailing_run(trgt@.subrange(old(self).cur_o_pos as int, trgt@.len() as int), MIN_MATCH_VALUE as int, final(self).run_len as int),
            old(self).ops@.len() == 0 || op_end(old(self).ops@.last()) <= old(self).cur_o_pos ==> final(self).min_match == MIN_MATCH_VALUE,
            final(self).src_matcher is None <==> old(self).src_matcher is None,
            old(self).src_matcher matches Some(m) && m.next_hash_pos > old(self).cur_o_pos && m.fwd_pos == old(self).cur_o_pos
                ==> final(self).src_matcher == old(self).src_matcher,
            final(self).min_match == min_match_at(old(self).ops@, old(self).cur_o_pos as int),
            old(self).src_matcher matches Some(a) ==> (final(self).src_matcher matches Some(b)
                && src_prepared(a, b, old(self).cur_o_pos as int, src@, trgt@)),
            old(self).trgt_matcher is None ==> final(self).trgt_matcher is None,
            old(self).trgt_matcher matches Some(a) ==> final(self).trgt_matcher == Some(trgt_prepared(a, old(self).cur_o_pos as int, trgt@)),
    {
        let cur = self.cur_o_pos;
        let seg = &trgt[cur..trgt.len()];
        let mut run_byte = self.run_byte;
        let run_len = find_initial_run_len(seg, MIN_MATCH_VALUE, &mut run_byte);
        self.run_len = run_len;
        self.run_byte = run_byte;
        proof {
            assert forall|k: int| 0 <= k < run_len implies #[trigger] trgt@[cur + 3 - k] == run_byte by {
                assert(seg@[4 - 1 - k] == seg@[4 - 1]);
            }
        }
        match self.src_matcher.take() {
            Some(mut m) => {
                if m.next_hash_pos <= cur {
                    add_start_positions_to_matcher(&mut m, cur, src);
                }
                let ghost m0 = m;
                if m.fwd_pos < m.max_fwd_hash_pos {
                    if m.fwd_pos + 9 > cur {
                        let mut old_pos = m.fwd_pos;
                        while old_pos < cur && old_pos + 9 < trgt.len()
                            invariant
                                m0.fwd_pos == cur ==> m == m0 && old_pos == cur,
                                m == (SrcMatcher { fwd_hash: m.fwd_hash, ..m0 }),
                                roll_large(m.fwd_hash, trgt@, old_pos as int, cur as int) == roll_large(m0.fwd_hash, trgt@, m0.fwd_pos as int, cur as int),
                                m.wf(),
                                cur <= trgt.len() < usize::MAX / 2,
                                m.src_len == src@.len(),
                                m.trgt_len == trgt@.len(),
                                m.trgt_len > 0,
                                m.max_fwd_hash_pos <= trgt@.len(),
                            decreases cur - old_pos,
                        {
                            m.fwd_hash = update_large_checksum_fwd(m.fwd_hash, trgt[old_pos], trgt[old_pos + 9]);
                            old_pos = old_pos + 1;
                        }
                    } else {
                        let end = if cur + 9 <= trgt.len() { cur + 9 } else { trgt.len() };
                        m.fwd_hash = calculate_large_checksum(&trgt[cur..end]);
                    }
                    m.fwd_pos = cur;
                }
                self.src_matcher = Some(m);
            },
            None => {},
        }
        match self.trgt_matcher.take() {
            Some(mut m) => {
                let ghost m0 = m;
                if m.fwd_pos < m.max_fwd_hash_pos {
                    if m.fwd_pos + 4 > cur {
                        let mut old_pos = m.fwd_pos;
                        while old_pos < cur && old_pos + 4 < trgt.len()
                            invariant
                                m == (TrgtMatcher { fwd_hash: m.fwd_hash, ..m0 }),
                                roll_small(m.fwd_hash, trgt@, old_pos as int, cur as int) == roll_small(m0.fwd_hash, trgt@, m0.fwd_pos as int, cur as int),
                                m.wf(),
                                cur <= trgt.len() < usize::MAX / 2,
                                m.max_fwd_hash_pos <= trgt@.len(),
                            decreases cur - old_pos,
                        {
                            m.fwd_hash = update_small_checksum_fwd(m.fwd_hash, trgt[old_pos], trgt[old_pos + 4]);
                            old_pos = old_pos + 1;
                        }
                    } else {
                        m.fwd_hash = calculate_small_checksum(&trgt[cur..cur + 4]);
                    }
                    m.fwd_pos = cur;
                }
                self.trgt_matcher = Some(m);
            },
            None => {},
        }
        let n = self.ops.len();
        let last_match_end_pos = if n > 0 {
            proof {
                assert(inner_valid(self.ops@[n - 1], src@, trgt@));
            }
            self.ops[n - 1].o_pos() + self.ops[n - 1].len()
        } else {
            0
        };
        self.min_match = if last_match_end_pos > cur {
            let m = 1 + last_match_end_pos - cur;
            if m > MIN_MATCH_VALUE { m } else { MIN_MATCH_VALUE }
        } else {
            MIN_MATCH_VALUE
        };
    }

    /// The run counter after the run test: when it stands at 4, the length of the run of
    /// `run_byte` from the current position on.
    pub open spec fn run_after(&self, trgt: Seq<u8>) -> usize {
        if self.run_len == MIN_MATCH_VALUE {
            (run_end(trgt, self.cur_o_pos + MIN_MATCH_VALUE, self.run_byte) - self.cur_o_pos) as usize
        } else {
            self.run_len
        }
    }

    /// The source match the source matcher offers at the current position, if it is there
    /// and 9 bytes fit before the end of the matched part.
    pub open spec fn src_found(&self, src: Seq<u8>, trgt: Seq<u8>) -> Option<(usize, usize, usize)> {
        match self.src_matcher {
            Some(m) => if self.cur_o_pos + 9 <= self.max_trgt_match_len && m.fwd_pos == self.cur_o_pos {
                m.best_src_match(src, trgt)
            } else {
                None
            },
            None => None,
        }
    }

    /// The target match the target matcher offers at the current position, if it is there.
    pub open spec fn trgt_found(&self, trgt: Seq<u8>) -> Option<(usize, usize)> {
        match self.trgt_matcher {
            Some(m) => if self.cur_o_pos + MIN_MATCH_VALUE <= self.max_trgt_match_len && m.fwd_pos == self.cur_o_pos {
                m.best_trgt_match(trgt, self.min_match)
            } else {
                None
            },
            None => None,
        }
    }

    /// The next state, the matches and `min_match` after a try at the current position: a
    /// run of at least `min_match` bytes when the run counter stands at 4; else a source
    /// match whose bytes from the current position on number at least `min_match` (it
    /// replaces the matches that start in the part before the position that it covers);
    /// else a target match of at least `min_match` bytes; else a move forward, with
    /// `min_match` one lower (not below 4).
    pub open spec fn try_outcome(&self, src: Seq<u8>, trgt: Seq<u8>) -> (EncoderState, Seq<InnerOp>, usize) {
        let cur = self.cur_o_pos;
        let run = self.run_after(trgt);
        if self.run_len == MIN_MATCH_VALUE && run >= self.min_match {
            (EncoderState::FoundMatch { match_len: run },
                self.ops@.push(InnerOp::Run { byte: self.run_byte, length: run, o_pos: cur }), self.min_match)
        } else {
            match self.src_found(src, trgt) {
                Some((sp, pre, post)) if post >= self.min_match => {
                    let kept = if pre > 0 { ops_before(self.ops@, cur - pre) } else { self.ops@ };
                    (EncoderState::FoundMatch { match_len: post },
                        kept.push(InnerOp::MatchSrc { start: (sp - pre) as usize, length: (pre + post) as usize, o_pos: (cur - pre) as usize }),
                        self.min_match)
                },
                _ => match self.trgt_found(trgt) {
                    Some((start, len)) if len >= self.min_match => (EncoderState::FoundMatch { match_len: len },
                        self.ops@.push(InnerOp::MatchTrgt { start, length: len, o_pos: cur }), self.min_match),
                    _ => (EncoderState::MoveForwardOneByte, self.ops@,
                        if self.min_match > MIN_MATCH_VALUE { (self.min_match - 1) as usize } else { self.min_match }),
                },
            }
        }
    }

    /// Looks for a match at the current position: a run of at least `min_match` bytes, else a
    /// source match, else a target match. Returns the next state.
    #[verifier::rlimit(40)]
    #[verifier::spinoff_prover]
    fn try_match(&mut self, src: &[u8], trgt: &[u8]) -> (r: EncoderState)
        requires
            old(self).inv(src@, trgt@, false),
            old(self).cur_o_pos + MIN_MATCH_VALUE < old(self).max_trgt_match_len,
        ensures
            final(self).inv(src@, trgt@, false),
            final(self).cur_o_pos == old(self).cur_o_pos,
            final(self).max_trgt_match_len == old(self).max_trgt_match_len,
            match r {
                EncoderState::FoundMatch { match_len } => match_len >= MIN_MATCH_VALUE
                    && final(self).cur_o_pos + match_len <= trgt@.len() && match_len >= final(self).min_match,
                EncoderState::MoveForwardOneByte => true,
                _ => false,
            },
            final(self).run_len == old(self).run_after(trgt@),
            final(self).run_byte == old(self).run_byte,
            final(self).src_matcher == old(self).src_matcher,
            final(self).trgt_matcher == old(self).trgt_matcher,
            (r, final(self).ops@, final(self).min_match) == old(self).try_outcome(src@, trgt@),
    {
        let cur = self.cur_o_pos;
        if self.run_len == MIN_MATCH_VALUE {
            let rb = self.run_byte;
            let mut run_len = self.run_len;
            let mut i = cur + MIN_MATCH_VALUE;
            while i < trgt.len() && trgt[i] == rb
                invariant
                    cur + MIN_MATCH_VALUE <= i <= trgt@.len(),
                    run_len == i - cur,
                    forall|j: int| cur + MIN_MATCH_VALUE <= j < i ==> trgt@[j] == rb,
                    run_end(trgt@, cur + MIN_MATCH_VALUE, rb) == run_end(trgt@, i as int, rb),
                decreases trgt@.len() - i,
            {
                run_len = run_len + 1;
                i = i + 1;
            }
            self.run_len = run_len;
            if self.run_len >= self.min_match {
                let op = InnerOp::Run { byte: self.run_byte, length: self.run_len, o_pos: cur };
                proof {
                    assert(trgt@[cur + 3 - 3] == rb && trgt@[cur + 3 - 2] == rb && trgt@[cur + 3 - 1] == rb && trgt@[cur + 3 - 0] == rb);
                    assert(run_end(trgt@, cur as int, rb) == run_end(trgt@, cur + 1, rb));
                    assert(run_end(trgt@, cur + 1, rb) == run_end(trgt@, cur + 2, rb));
                    assert(run_end(trgt@, cur + 2, rb) == run_end(trgt@, cur + 3, rb));
                    assert(run_end(trgt@, cur + 3, rb) == run_end(trgt@, cur + 4, rb));
                    assert forall|j: int| cur <= j < cur + self.run_len implies trgt@[j] == rb by {
                        if j < cur + 4 {
                            assert(trgt@[cur + 3 - (cur + 3 - j)] == rb);
                        }
                    }
                }
                self.ops.push(op);
                return EncoderState::FoundMatch { match_len: self.run_len };
            }
        }
        match self.src_matcher.take() {
            Some(mut m) => {
                if cur + 9 <= self.max_trgt_match_len && m.fwd_pos == cur {
                    let found = m.find_best_src_match(src, trgt);
                    self.src_matcher = Some(m);
                    match found {
                        Some((src_start, pre_match, post_match)) => {
                            if post_match >= self.min_match {
                                let length = pre_match + post_match;
                                let trgt_match_start = cur - pre_match;
                                if pre_match > 0 {
                                    clear_existing_ops(&mut self.ops, trgt_match_start);
                                }
                                let src_match_start = src_start - pre_match;
                                let op = InnerOp::MatchSrc { start: src_match_start, length, o_pos: trgt_match_start };
                                self.ops.push(op);
                                return EncoderState::FoundMatch { match_len: post_match };
                            }
                        },
                        None => {},
                    }
                } else {
                    self.src_matcher = Some(m);
                }
            },
            None => {},
        }
        match &self.trgt_matcher {
            Some(m) => {
                if cur + MIN_MATCH_VALUE <= self.max_trgt_match_len && m.fwd_pos == cur {
                    match m.find_best_trgt_match(trgt, self.min_match) {
                        Some((match_start, length)) => {
                            if length >= self.min_match {
                                let op = InnerOp::MatchTrgt { start: match_start, length, o_pos: cur };
                                self.ops.push(op);
                                return EncoderState::FoundMatch { match_len: length };
                            }
                        },
                        None => {},
                    }
                }
            },
            None => {},
        }
        if self.min_match > MIN_MATCH_VALUE {
            self.min_match = self.min_match - 1;
        }
        EncoderState::MoveForwardOneByte
    }

    /// Moves the encoder forward one byte: the run counter takes in the byte at
    /// `cur_o_pos + 4`, the target matcher stores the current position, and both matchers'
    /// hashes roll forward.
    fn move_forward(&mut self, src: &[u8], trgt: &[u8])
        requires
            old(self).inv(src@, trgt@, false),
            old(self).cur_o_pos + MIN_MATCH_VALUE < old(self).max_trgt_match_len,
        ensures
            final(self).inv(src@, trgt@, false),
            final(self).cur_o_pos == old(self).cur_o_pos + 1,
            final(self).max_trgt_match_len == old(self).max_trgt_match_len,
            final(self).ops == old(self).ops,
            final(self).src_matcher is None <==> old(self).src_matcher is None,
            final(self).min_match == old(self).min_match,
            final(self).run_byte == trgt@[old(self).cur_o_pos + MIN_MATCH_VALUE],
            final(self).run_len == (if old(self).run_byte == trgt@[old(self).cur_o_pos + MIN_MATCH_VALUE] { old(self).run_len + 1 } else { 1 }),
            old(self).src_matcher matches Some(m) ==> final(self).src_matcher == Some(src_stepped(m, old(self).cur_o_pos as int, trgt@)),
            old(self).trgt_matcher is None ==> final(self).trgt_matcher is None,
            old(self).trgt_matcher matches Some(m) ==> (final(self).trgt_matcher matches Some(n)
                && trgt_stepped(m, n, old(self).cur_o_pos as int, trgt@)),
    {
        let cur = self.cur_o_pos;
        let next_char = trgt[cur + MIN_MATCH_VALUE];
        let ghost old_len = self.run_len;
        let ghost old_byte = self.run_byte;
        if self.run_byte == next_char {
            self.run_len = self.run_len + 1;
        } else {
            self.run_len = 1;
            self.run_byte = next_char;
        }
        proof {
            if cur + 1 + MIN_MATCH_VALUE < self.max_trgt_match_len && self.run_len <= MIN_MATCH_VALUE {
                assert forall|k: int| 0 <= k < self.run_len implies #[trigger] trgt@[cur + 1 + 3 - k] == self.run_byte by {
                    if k > 0 {
                        assert(trgt@[cur + 3 - (k - 1)] == old_byte);
                    }
                }
            }
        }
        step_trgt_matcher(&mut self.trgt_matcher, trgt, cur);
        step_src_matcher(&mut self.src_matcher, trgt, cur);
        self.cur_o_pos = cur + 1;
    }
}

/// The target matcher stores position `cur` and rolls its hash one byte forward.
fn step_trgt_matcher(matcher: &mut Option<TrgtMatcher>, trgt: &[u8], cur: usize)
    requires
        cur + 4 < trgt@.len() < usize::MAX / 2,
        *old(matcher) matches Some(m) ==> m.wf() && m.max_fwd_hash_pos <= trgt@.len(),
    ensures
        *final(matcher) matches Some(m) ==> m.wf() && m.max_fwd_hash_pos <= trgt@.len(),
        final(matcher).is_some() == old(matcher).is_some(),
        *old(matcher) matches Some(m) ==> (*final(matcher) matches Some(n) && m.stored(n, m.fwd_hash as u64, cur)
            && n.compress_early_exit == m.compress_early_exit && n.chain_check == m.chain_check
            && n.max_fwd_hash_pos == m.max_fwd_hash_pos
            && if m.fwd_pos < m.max_fwd_hash_pos {
                n.fwd_hash == small_fwd(m.fwd_hash, trgt@[cur as int], trgt@[cur + 4]) && n.fwd_pos == cur + 1
            } else {
                n.fwd_hash == m.fwd_hash && n.fwd_pos == m.fwd_pos
            }),
{
    match matcher.take() {
        Some(mut m) => {
            m.store(m.fwd_hash as u64, cur);
            if m.fwd_pos < m.max_fwd_hash_pos {
                m.fwd_hash = update_small_checksum_fwd(m.fwd_hash, trgt[cur], trgt[cur + 4]);
                m.fwd_pos = cur + 1;
            }
            *matcher = Some(m);
        },
        None => {},
    }
}

/// The source matcher rolls its hash one byte forward (while the window fits the target).
fn step_src_matcher(matcher: &mut Option<SrcMatcher>, trgt: &[u8], cur: usize)
    requires
        cur + 4 < trgt@.len() < usize::MAX / 2,
    ensures
        *old(matcher) matches Some(m) ==> (*final(matcher) matches Some(n) && n.wf() == m.wf() && n.src_len == m.src_len
            && n.trgt_len == m.trgt_len && n.max_fwd_hash_pos == m.max_fwd_hash_pos),
        final(matcher).is_some() == old(matcher).is_some(),
        *old(matcher) matches Some(m) ==> *final(matcher) == Some(
            if m.fwd_pos < m.max_fwd_hash_pos && cur + 9 < trgt@.len() {
                SrcMatcher { fwd_hash: large_fwd(m.fwd_hash, trgt@[cur as int], trgt@[cur + 9]), fwd_pos: (cur + 1) as usize, ..m }
            } else {
                m
            }),
{
    match matcher.take() {
        Some(mut m) => {
            if m.fwd_pos < m.max_fwd_hash_pos && cur + 9 < trgt.len() {
                m.fwd_hash = update_large_checksum_fwd(m.fwd_hash, trgt[cur], trgt[cur + 9]);
                m.fwd_pos = cur + 1;
            }
            *matcher = Some(m);
        },
        None => {},
    }
}

/// The rank of a state, for the loop's progress.
spec fn state_rank(s: EncoderState) -> int {
    match s {
        EncoderState::StartNewMatch => 3,
        EncoderState::TryMatch => 2,
        EncoderState::FoundMatch { .. } => 1,
        EncoderState::MoveForwardOneByte => 0,
    }
}

/// At most `max` bytes match going back.
proof fn lemma_match_back_le(x: Seq<u8>, i: int, y: Seq<u8>, j: int, max: int)
    ensures
        0 <= match_back_len(x, i, y, j, max),
        max >= 0 ==> match_back_len(x, i, y, j, max) <= max,
    decreases max,
{
    if max > 0 && x[i - 1] == y[j - 1] {
        lemma_match_back_le(x, i - 1, y, j - 1, max - 1);
    }
}

/// A forward match counts at most `max` bytes.
proof fn lemma_match_len_le(x: Seq<u8>, i: int, y: Seq<u8>, j: int, max: int)
    ensures
        0 <= match_len(x, i, y, j, max),
        max >= 0 ==> match_len(x, i, y, j, max) <= max,
    decreases max,
{
    if max > 0 && x[i] == y[j] {
        lemma_match_len_le(x, i + 1, y, j + 1, max - 1);
    }
}

/// Where `n` bytes are equal, a forward match of at most `n` counts them all.
proof fn lemma_match_len_all(x: Seq<u8>, i: int, y: Seq<u8>, j: int, n: int)
    requires
        n >= 0,
        0 <= i,
        0 <= j,
        i + n <= x.len(),
        j + n <= y.len(),
        x.subrange(i, i + n) == y.subrange(j, j + n),
    ensures
        match_len(x, i, y, j, n) == n,
    decreases n,
{
    if n > 0 {
        let xs = x.subrange(i, i + n);
        let ys = y.subrange(j, j + n);
        assert(xs[0] == x[i + 0]);
        assert(ys[0] == y[j + 0]);
        assert(x[i] == y[j]);
        assert(x.subrange(i + 1, i + n) =~= x.subrange(i, i + n).subrange(1, n));
        assert(y.subrange(j + 1, j + n) =~= y.subrange(j, j + n).subrange(1, n));
        lemma_match_len_all(x, i + 1, y, j + 1, n - 1);
    }
}

/// Dropping trailing matches that start at or after `g` keeps a first match that starts
/// before `g`.
proof fn lemma_ops_before_keeps_first(ops: Seq<InnerOp>, g: int)
    requires
        ops.len() >= 1,
        op_pos(ops[0]) < g,
    ensures
        ops_before(ops, g).len() >= 1,
        ops_before(ops, g)[0] == ops[0],
    decreases ops.len(),
{
    if op_pos(ops.last()) >= g {
        lemma_ops_before_keeps_first(ops.drop_last(), g);
    }
}

impl EncodeLoop {
    /// A try keeps a first match at output position 0.
    proof fn lemma_try_keeps_first(&self, src: Seq<u8>, trgt: Seq<u8>)
        requires
            self.ops@.len() >= 1,
            op_pos(self.ops@[0]) == 0,
        ensures
            self.try_outcome(src, trgt).1.len() >= 1,
            self.try_outcome(src, trgt).1[0] == self.ops@[0],
    {
        let cur = self.cur_o_pos as int;
        if let Some(m) = self.src_matcher {
            if let Some(tp) = m.table.lookup(m.fwd_hash) {
                let ss = tp * m.l_step;
                let min_offset = if ss < m.fwd_pos { ss } else { m.fwd_pos as int };
                let pre_max = if min_offset > 1 { min_offset - 1 } else { 0 };
                lemma_match_back_le(src, ss, trgt, m.fwd_pos as int, pre_max);
            }
        }
        if let Some((sp, pre, post)) = self.src_found(src, trgt) {
            if pre > 0 {
                assert(cur - pre >= 1);
                lemma_ops_before_keeps_first(self.ops@, cur - pre);
            }
        }
    }
}

/// At position 0, with the source's first position stored for the checksum of the target's
/// first 9 bytes, a try takes the copy from the source's start.
proof fn lemma_src_prefix_found(st: EncodeLoop, src: Seq<u8>, trgt: Seq<u8>)
    requires
        st.cur_o_pos == 0,
        st.ops@.len() == 0,
        st.min_match == MIN_MATCH_VALUE,
        st.run_len != MIN_MATCH_VALUE,
        9 <= st.max_trgt_match_len,
        9 < trgt.len(),
        9 <= src.len() <= usize::MAX,
        trgt.len() <= usize::MAX,
        trgt.subrange(0, 9) == src.subrange(0, 9),
        st.src_matcher matches Some(m) && m.fwd_pos == 0 && m.fwd_hash == large_checksum(trgt.subrange(0, 9))
            && m.table.lookup(large_checksum(src.subrange(0, 9))) == Some(0usize),
    ensures
        st.try_outcome(src, trgt).1 == seq![src_prefix_op(src, trgt)],
{
    let m = st.src_matcher.unwrap();
    assert(m.table.lookup(m.fwd_hash) == Some(0usize));
    assert(0 * m.l_step == 0);
    lemma_match_len_all(src, 0, trgt, 0, 9);
    let post_max = if src.len() < trgt.len() { src.len() - 9 } else { trgt.len() - 9 };
    lemma_match_len_le(src, 9, trgt, 9, post_max);
    let post = match_len(src, 9, trgt, 9, post_max);
    assert(src_extension(src, 0, trgt, 0) == Some((0usize, post as usize)));
    assert(m.best_src_match(src, trgt) == Some((0usize, 0usize, (post + 9) as usize)));
    assert(st.src_found(src, trgt) == Some((0usize, 0usize, (post + 9) as usize)));
}

/// The naive tests' outcome on whether `trgt` starts (`starts`) or ends (`ends`) with the
/// source: (whether a source at the start is taken, whether one at the end is).
pub open spec fn naive_choice(tests: LargerTrgtNaiveTests, starts: bool, ends: bool) -> (bool, bool) {
    match tests {
        LargerTrgtNaiveTests::Append => (true, false),
        LargerTrgtNaiveTests::Prepend => (false, true),
        LargerTrgtNaiveTests::AppendPrepend => (true, !starts),
        LargerTrgtNaiveTests::PrependAppend => (!ends, true),
    }
}

/// `trgt` starts with the (non-empty) source.
pub open spec fn starts_with_src(src: Seq<u8>, trgt: Seq<u8>) -> bool {
    src.len() > 0 && src.len() <= trgt.len() && trgt.subrange(0, src.len() as int) == src
}

/// `trgt` ends with the (non-empty) source.
pub open spec fn ends_with_src(src: Seq<u8>, trgt: Seq<u8>) -> bool {
    src.len() > 0 && src.len() <= trgt.len() && trgt.subrange(trgt.len() - src.len(), trgt.len() as int) == src
}

/// The naive tests take the whole source as the start of a larger target.
pub open spec fn naive_append(tests: Option<LargerTrgtNaiveTests>, src: Seq<u8>, trgt: Seq<u8>) -> bool {
    &&& trgt.len() > src.len()
    &&& tests matches Some(t) && naive_choice(t, starts_with_src(src, trgt), ends_with_src(src, trgt)).0
    &&& starts_with_src(src, trgt)
}

/// The naive tests take the whole source as the end of a larger target.
pub open spec fn naive_prepend(tests: Option<LargerTrgtNaiveTests>, src: Seq<u8>, trgt: Seq<u8>) -> bool {
    &&& trgt.len() > src.len()
    &&& !naive_append(tests, src, trgt)
    &&& tests matches Some(t) && naive_choice(t, starts_with_src(src, trgt), ends_with_src(src, trgt)).1
    &&& ends_with_src(src, trgt)
}

/// The encoder has nothing to match with: no matcher, only a source matcher and an empty
/// source, or an empty target.
pub open spec fn nothing_to_match(config: GenericEncoderConfig, src: Seq<u8>, trgt: Seq<u8>) -> bool {
    ||| config.match_src is None && config.match_trgt is None
    ||| src.len() == 0 && config.match_trgt is None
    ||| trgt.len() == 0
}

/// Where the scan for matches starts: after the source when the naive tests take it as the
/// start of the target, else at 0.
pub open spec fn scan_start(config: GenericEncoderConfig, src: Seq<u8>, trgt: Seq<u8>) -> int {
    if naive_append(config.naive_tests, src, trgt) { src.len() as int } else { 0 }
}

/// Where the matched part of the target ends: before the source when the naive tests take it
/// as the end of the target, else at the target's end.
pub open spec fn scan_end(config: GenericEncoderConfig, src: Seq<u8>, trgt: Seq<u8>) -> int {
    if naive_prepend(config.naive_tests, src, trgt) { trgt.len() - src.len() } else { trgt.len() as int }
}

/// The index of the first match the scan finds: after the match the naive tests put first.
pub open spec fn scan_first(config: GenericEncoderConfig, src: Seq<u8>, trgt: Seq<u8>) -> int {
    if naive_append(config.naive_tests, src, trgt) { 1 } else { 0 }
}

/// The 4 bytes at `p` are one byte.
pub open spec fn four_alike(trgt: Seq<u8>, p: int) -> bool {
    trgt[p + 1] == trgt[p] && trgt[p + 2] == trgt[p] && trgt[p + 3] == trgt[p]
}

/// A run goes on at least to where it is looked at.
proof fn lemma_run_end_ge(trgt: Seq<u8>, i: int, b: u8)
    ensures
        run_end(trgt, i, b) >= i,
        0 <= i <= trgt.len() ==> run_end(trgt, i, b) <= trgt.len(),
    decreases trgt.len() - i,
{
    if 0 <= i < trgt.len() && trgt[i] == b {
        lemma_run_end_ge(trgt, i + 1, b);
    }
}

/// Dropping trailing matches keeps the ones before them as they were.
proof fn lemma_ops_before_prefix(ops: Seq<InnerOp>, g: int)
    ensures
        ops_before(ops, g).len() <= ops.len(),
        forall|k: int| 0 <= k < ops_before(ops, g).len() ==> ops_before(ops, g)[k] == ops[k],
    decreases ops.len(),
{
    if ops.len() > 0 && op_pos(ops.last()) >= g {
        lemma_ops_before_prefix(ops.drop_last(), g);
        assert forall|k: int| 0 <= k < ops_before(ops, g).len() implies ops_before(ops, g)[k] == ops[k] by {
            assert(ops.drop_last()[k] == ops[k]);
        }
    }
}

/// The step at which the source matcher stores source positions (at least 1), or 0 when
/// there is no source matcher.
pub open spec fn src_step(config: GenericEncoderConfig) -> int {
    match config.match_src {
        Some(c) => if c.l_step >= 1 { c.l_step as int } else { 1 },
        None => 0,
    }
}

/// The scan starts at 0 with a source matcher, on a source long enough that its first
/// position is among those hashed first, and the target's first 9 bytes are the source's
/// first 9 (and not a run of one byte).
pub open spec fn starts_like_src(config: GenericEncoderConfig, src: Seq<u8>, trgt: Seq<u8>) -> bool {
    &&& config.match_src is Some
    &&& src.len() >= 18 + 2 * src_step(config)
    &&& scan_start(config, src, trgt) == 0
    &&& 9 <= scan_end(config, src, trgt)
    &&& 9 < trgt.len()
    &&& !four_alike(trgt, 0)
    &&& trgt.subrange(0, 9) == src.subrange(0, 9)
}

/// The copy from the start of the source that covers the target's common prefix with it.
pub open spec fn src_prefix_op(src: Seq<u8>, trgt: Seq<u8>) -> InnerOp {
    let post_max = if src.len() < trgt.len() { src.len() - 9 } else { trgt.len() - 9 };
    InnerOp::MatchSrc { start: 0, length: (9 + match_len(src, 9, trgt, 9, post_max)) as usize, o_pos: 0 }
}

/// The least length at which a found match is taken at once instead of looking one byte
/// further for a longer one.
pub open spec fn lazy_len(config: GenericEncoderConfig) -> usize {
    match config.lazy_escape_len {
        Some(l) => l,
        None => 90,
    }
}

/// The state the scan starts in: the whole source first when the naive tests take it as the
/// start of the target, the scan at its start, the matched part ending at the scan's end,
/// and the matchers (where configured) as their `build` makes them.
pub open spec fn scan_init(config: GenericEncoderConfig, src: Seq<u8>, trgt: Seq<u8>, a: EncodeLoop) -> bool {
    &&& a.ops@ == (if naive_append(config.naive_tests, src, trgt) {
        seq![InnerOp::MatchSrc { start: 0, length: src.len() as usize, o_pos: 0 }]
    } else {
        Seq::empty()
    })
    &&& a.cur_o_pos == scan_start(config, src, trgt)
    &&& a.max_trgt_match_len == scan_end(config, src, trgt)
    &&& a.min_match == MIN_MATCH_VALUE
    &&& a.run_len == 0
    &&& a.run_byte == 0
    &&& match config.match_trgt {
        None => a.trgt_matcher is None,
        Some(c) => a.trgt_matcher matches Some(m) && trgt_built(c, m, trgt, scan_start(config, src, trgt)),
    }
    &&& match config.match_src {
        None => a.src_matcher is None,
        Some(c) => a.src_matcher matches Some(m) && src_built(c, m, src, trgt, scan_start(config, src, trgt)),
    }
}

/// One step of the scan, from `a` in state `sa` to `b` in state
/// `sb`. A new match at the current position counts the run before it and prepares the
/// matchers; a try takes what `try_outcome` gives; a found match shorter than the
/// lazy length (and not reaching the end) is kept while the scan looks one byte further for
/// a longer one, else the scan jumps past it; a move forward goes one byte on, rolling the
/// run counter and the matchers' hashes (the target matcher storing the position left).
pub open spec fn scan_step(src: Seq<u8>, trgt: Seq<u8>, lazy: usize, a: EncodeLoop, sa: EncoderState, b: EncodeLoop, sb: EncoderState) -> bool {
    &&& b.max_trgt_match_len == a.max_trgt_match_len
    &&& match sa {
        EncoderState::StartNewMatch => {
            &&& sb is TryMatch
            &&& b.cur_o_pos == a.cur_o_pos
            &&& b.ops@ == a.ops@
            &&& b.min_match == min_match_at(a.ops@, a.cur_o_pos as int)
            &&& b.run_byte == trgt[a.cur_o_pos + 3]
            &&& trailing_run(trgt.subrange(a.cur_o_pos as int, trgt.len() as int), MIN_MATCH_VALUE as int, b.run_len as int)
            &&& match a.src_matcher {
                None => b.src_matcher is None,
                Some(x) => b.src_matcher matches Some(y) && src_prepared(x, y, a.cur_o_pos as int, src, trgt),
            }
            &&& match a.trgt_matcher {
                None => b.trgt_matcher is None,
                Some(x) => b.trgt_matcher == Some(trgt_prepared(x, a.cur_o_pos as int, trgt)),
            }
        },
        EncoderState::TryMatch => {
            &&& (sb, b.ops@, b.min_match) == a.try_outcome(src, trgt)
            &&& b.cur_o_pos == a.cur_o_pos
            &&& b.run_len == a.run_after(trgt)
            &&& b.run_byte == a.run_byte
            &&& b.src_matcher == a.src_matcher
            &&& b.trgt_matcher == a.trgt_matcher
        },
        EncoderState::FoundMatch { match_len } => {
            &&& b.ops@ == a.ops@
            &&& b.run_len == a.run_len
            &&& b.run_byte == a.run_byte
            &&& b.src_matcher == a.src_matcher
            &&& b.trgt_matcher == a.trgt_matcher
            &&& if lazy > 0 && match_len < lazy && a.cur_o_pos + match_len < a.max_trgt_match_len - 1 {
                sb is MoveForwardOneByte && b.cur_o_pos == a.cur_o_pos && b.min_match == match_len
            } else {
                sb is StartNewMatch && b.cur_o_pos == a.cur_o_pos + match_len && b.min_match == a.min_match
            }
        },
        EncoderState::MoveForwardOneByte => {
            let c = trgt[a.cur_o_pos + MIN_MATCH_VALUE];
            &&& sb is TryMatch
            &&& b.cur_o_pos == a.cur_o_pos + 1
            &&& b.ops@ == a.ops@
            &&& b.min_match == a.min_match
            &&& b.run_byte == c
            &&& b.run_len == (if a.run_byte == c { a.run_len + 1 } else { 1 })
            &&& match a.src_matcher {
                None => b.src_matcher is None,
                Some(m) => b.src_matcher == Some(src_stepped(m, a.cur_o_pos as int, trgt)),
            }
            &&& match a.trgt_matcher {
                None => b.trgt_matcher is None,
                Some(m) => b.trgt_matcher matches Some(n) && trgt_stepped(m, n, a.cur_o_pos as int, trgt),
            }
        },
    }
}

/// Step `i` of the trace `t` is a step of the scan, taken while 4 bytes are left before the
/// end of the matched part.
pub open spec fn trace_step_ok(src: Seq<u8>, trgt: Seq<u8>, lazy: usize, t: Seq<(EncodeLoop, EncoderState)>, i: int) -> bool {
    &&& t[i].0.cur_o_pos + MIN_MATCH_VALUE < t[i].0.max_trgt_match_len
    &&& scan_step(src, trgt, lazy, t[i].0, t[i].1, t[i + 1].0, t[i + 1].1)
}

/// `t` is the whole run of the scan: it starts as `scan_init` says, each state follows from
/// the one before by a step, and it ends once fewer than 5 bytes are left before the end of
/// the matched part.
pub open spec fn scan_trace(config: GenericEncoderConfig, src: Seq<u8>, trgt: Seq<u8>, t: Seq<(EncodeLoop, EncoderState)>) -> bool {
    &&& t.len() >= 1
    &&& scan_init(config, src, trgt, t[0].0)
    &&& t[0].1 is StartNewMatch
    &&& forall|i: int| 0 <= i < t.len() - 1 ==> #[trigger] trace_step_ok(src, trgt, lazy_len(config), t, i)
    &&& t.last().0.cur_o_pos + MIN_MATCH_VALUE >= t.last().0.max_trgt_match_len
}

/// What the scan returns from its last state: its matches, and the whole source last when the
/// naive tests take it as the end of the target.
pub open spec fn scan_result(config: GenericEncoderConfig, src: Seq<u8>, trgt: Seq<u8>, last: EncodeLoop) -> Seq<InnerOp> {
    if naive_prepend(config.naive_tests, src, trgt) {
        last.ops@.push(InnerOp::MatchSrc { start: 0, length: src.len() as usize, o_pos: (trgt.len() - src.len()) as usize })
    } else {
        last.ops@
    }
}

/// What the match finder returns for `src` and `trgt` under `config`: valid matches ordered
/// by output position, each of at least one byte (runs of at least 4, each reaching the end
/// of the run of its byte that starts where it does); none when there is
/// nothing to match with; the whole source first or last where the naive tests take it; the
/// scanned matches starting more than 4 bytes before the end of the scanned part; the run
/// at the scan's start when its first 4 bytes are one byte (without a source matcher, or
/// where the scan starts at 0); where the target starts with the source's first 9 bytes,
/// the copy from the source's start first; and, whenever there is something to match with,
/// exactly what the scan (`scan_trace`) ends with.
pub open spec fn inner_result(config: GenericEncoderConfig, src: Seq<u8>, trgt: Seq<u8>, r: Seq<InnerOp>) -> bool {
    &&& inner_ops_ok(r, src, trgt)
    &&& forall|i: int| 0 <= i < r.len() ==> op_length(#[trigger] r[i]) >= 1
    &&& nothing_to_match(config, src, trgt) ==> r.len() == 0
    &&& !nothing_to_match(config, src, trgt) && naive_append(config.naive_tests, src, trgt) ==> r.len() >= 1
        && r[0] == (InnerOp::MatchSrc { start: 0, length: src.len() as usize, o_pos: 0 })
    &&& !nothing_to_match(config, src, trgt) && naive_prepend(config.naive_tests, src, trgt) ==> r.len() >= 1
        && r.last() == (InnerOp::MatchSrc { start: 0, length: src.len() as usize, o_pos: (trgt.len() - src.len()) as usize })
        && forall|i: int| 0 <= i < r.len() - 1 ==> op_pos(#[trigger] r[i]) < trgt.len() - src.len()
    &&& forall|i: int| 0 <= i < r.len() && (#[trigger] r[i]) is Run ==> op_length(r[i]) >= MIN_MATCH_VALUE
    &&& forall|i: int| 0 <= i < r.len() ==> ((#[trigger] r[i]) matches InnerOp::Run { byte, length, o_pos }
        ==> length == run_end(trgt, o_pos as int, byte) - o_pos)
    &&& !nothing_to_match(config, src, trgt) ==> forall|i: int|
        scan_first(config, src, trgt) <= i < r.len() - (if naive_prepend(config.naive_tests, src, trgt) { 1int } else { 0 })
        ==> op_pos(#[trigger] r[i]) + MIN_MATCH_VALUE < scan_end(config, src, trgt)
    &&& !nothing_to_match(config, src, trgt) && (config.match_src is None || scan_start(config, src, trgt) == 0)
        && scan_start(config, src, trgt) + MIN_MATCH_VALUE < scan_end(config, src, trgt)
        && four_alike(trgt, scan_start(config, src, trgt)) ==> ({
        let p = scan_start(config, src, trgt);
        let k = scan_first(config, src, trgt);
        &&& r.len() > k
        &&& r[k] == InnerOp::Run { byte: trgt[p], length: (run_end(trgt, p + MIN_MATCH_VALUE, trgt[p]) - p) as usize, o_pos: p as usize }
    })
    &&& starts_like_src(config, src, trgt) ==> r.len() >= 1 && r[0] == src_prefix_op(src, trgt)
    &&& !nothing_to_match(config, src, trgt) ==> exists|t: Seq<(EncodeLoop, EncoderState)>|
        #[trigger] scan_trace(config, src, trgt, t) && r == scan_result(config, src, trgt, t.last().0)
}

/// Returns all possible operations to encode src into trgt.
/// This means ops may overlap or not; they are ordered by output position, and each one
/// produces the target bytes it covers. It is up to the caller to decide how to handle the
/// gaps and overlaps.
pub fn encode_inner(config: &mut GenericEncoderConfig, src: &[u8], trgt: &[u8]) -> (r: Vec<InnerOp>)
    requires
        old(config).buildable(),
        trgt@.len() < usize::MAX / 2,
    ensures
        inner_result(*old(config), src@, trgt@, r@),
{
    let naive_tests = config.naive_tests;
    let trgt_len = trgt.len();
    if (config.match_src.is_none() && config.match_trgt.is_none()) || (src.len() == 0 && config.match_trgt.is_none()) || trgt_len == 0 {
        return Vec::new();
    }
    let src_len = src.len();
    let mut ops: Vec<InnerOp> = Vec::new();
    let mut max_trgt_match_len = trgt_len;
    let mut cur_o_pos: usize = 0;
    if trgt_len > src_len && naive_tests.is_some() {
        let at_start = if src_len > 0 { match_forward(trgt, 0, src, 0, src_len) } else { 0 };
        let at_end = if src_len > 0 { match_forward(trgt, trgt_len - src_len, src, 0, src_len) } else { 0 };
        let starts = src_len > 0 && at_start == src_len;
        let ends = src_len > 0 && at_end == src_len;
        proof {
            assert(src@.subrange(0, src_len as int) =~= src@);
            if src_len > 0 && at_start < src_len {
                assert(trgt@.subrange(0, src_len as int)[at_start as int] != src@[at_start as int]);
            }
            if src_len > 0 && at_end < src_len {
                assert(trgt@.subrange(trgt_len - src_len, trgt_len as int)[at_end as int] != src@[at_end as int]);
            }
            assert(starts == starts_with_src(src@, trgt@));
            assert(ends == ends_with_src(src@, trgt@));
        }
        let (try_start, try_end) = match naive_tests {
            Some(LargerTrgtNaiveTests::Append) => (true, false),
            Some(LargerTrgtNaiveTests::Prepend) => (false, true),
            Some(LargerTrgtNaiveTests::AppendPrepend) => (true, !starts),
            _ => (!ends, true),
        };
        if try_start && starts {
            ops.push(InnerOp::MatchSrc { start: 0, length: src_len, o_pos: 0 });
            cur_o_pos = src_len;
        } else if try_end && ends {
            max_trgt_match_len = trgt_len - src_len;
        }
    }
    let ghost prepended = max_trgt_match_len < trgt_len;
    let ghost appended = ops@.len() > 0;
    proof {
        assert(appended == naive_append(naive_tests, src@, trgt@));
        assert(prepended == naive_prepend(naive_tests, src@, trgt@));
        if prepended {
            assert(src@.subrange(0, src_len as int) =~= src@);
        }
        if ops@.len() > 0 {
            assert(trgt@.subrange(0, src_len as int) == src@.subrange(0, src_len as int));
        }
    }
    let trgt_matcher = match config.match_trgt {
        Some(mut c) => {
            let m = c.build(trgt, cur_o_pos);
            config.match_trgt = Some(c);
            Some(m)
        },
        None => None,
    };
    let src_matcher = match config.match_src {
        Some(mut c) => {
            let m = c.build(src, cur_o_pos, trgt);
            config.match_src = Some(c);
            Some(m)
        },
        None => None,
    };
    let lazy_escape_len = match config.lazy_escape_len {
        Some(l) => l,
        None => 90,
    };
    let mut st = EncodeLoop {
        ops,
        cur_o_pos,
        max_trgt_match_len,
        min_match: MIN_MATCH_VALUE,
        run_len: 0,
        run_byte: 0,
        src_matcher,
        trgt_matcher,
    };
    let mut state = EncoderState::StartNewMatch;
    let ghost p0 = cur_o_pos as int;
    let ghost k0 = st.ops@.len() as int;
    let ghost no_src = st.src_matcher is None;
    let ghost first_run = (no_src || p0 == 0) && p0 + MIN_MATCH_VALUE < max_trgt_match_len && four_alike(trgt@, p0);
    let ghost src_first = starts_like_src(*old(config), src@, trgt@);
    let ghost sm0 = st.src_matcher;
    let ghost src_op = src_prefix_op(src@, trgt@);
    let ghost run_op = InnerOp::Run { byte: trgt@[p0], length: (run_end(trgt@, p0 + MIN_MATCH_VALUE, trgt@[p0]) - p0) as usize, o_pos: p0 as usize };
    let ghost mut iter: int = 0;
    let ghost lazy = lazy_len(*old(config));
    let ghost mut trace: Seq<(EncodeLoop, EncoderState)> = seq![(st, state)];
    proof {
        assert(st.ops@ =~= (if naive_append(old(config).naive_tests, src@, trgt@) {
            seq![InnerOp::MatchSrc { start: 0, length: src@.len() as usize, o_pos: 0 }]
        } else {
            Seq::empty()
        }));
        assert(scan_init(*old(config), src@, trgt@, st));
        assert(p0 == scan_start(*old(config), src@, trgt@));
        assert(k0 == scan_first(*old(config), src@, trgt@));
        assert(max_trgt_match_len == scan_end(*old(config), src@, trgt@));
        assert(no_src == (old(config).match_src is None));
        if src_first {
            assert(p0 == 0);
            let m = sm0.unwrap();
            assert(m.fwd_pos == 0);
            assert(m.fwd_hash == large_checksum(trgt@.subrange(0, 9)));
            assert(m.table.lookup(large_checksum(src@.subrange(0, 9))) == Some(0usize));
        }
    }
    loop
        invariant
            st.inv(src@, trgt@, state is StartNewMatch),
            lazy == lazy_escape_len,
            trace.len() >= 1 && scan_init(*old(config), src@, trgt@, trace[0].0) && trace[0].1 is StartNewMatch
                && (forall|i: int| 0 <= i < trace.len() - 1 ==> #[trigger] trace_step_ok(src@, trgt@, lazy, trace, i))
                && trace.last() == (st, state),
            0 <= k0 <= 1,
            k0 == 1 <==> appended,
            p0 == (if appended { src_len as int } else { 0 }),
            appended ==> st.ops@.len() >= 1 && st.ops@[0] == (InnerOp::MatchSrc { start: 0, length: src_len, o_pos: 0 }),
            forall|i: int| k0 <= i < st.ops@.len() ==> op_pos(#[trigger] st.ops@[i]) + MIN_MATCH_VALUE < max_trgt_match_len,
            no_src ==> st.src_matcher is None,
            first_run == ((no_src || p0 == 0) && p0 + MIN_MATCH_VALUE < max_trgt_match_len && four_alike(trgt@, p0)),
            src_first ==> 18 <= src_len && p0 == 0 && k0 == 0 && 9 <= max_trgt_match_len && 9 < trgt_len && !four_alike(trgt@, 0)
                && trgt@.subrange(0, 9) == src@.subrange(0, 9)
                && (sm0 matches Some(m) && m.next_hash_pos > 0 && m.fwd_pos == 0
                && m.fwd_hash == large_checksum(trgt@.subrange(0, 9))
                && m.table.lookup(large_checksum(src@.subrange(0, 9))) == Some(0usize)),
            src_op == src_prefix_op(src@, trgt@),
            iter <= 1 && src_first ==> st.src_matcher == sm0,
            iter == 1 && src_first ==> st.run_len != MIN_MATCH_VALUE,
            iter >= 2 && src_first ==> st.ops@.len() >= 1 && st.ops@[0] == src_op,
            run_op == (InnerOp::Run { byte: trgt@[p0], length: (run_end(trgt@, p0 + MIN_MATCH_VALUE, trgt@[p0]) - p0) as usize, o_pos: p0 as usize }),
            iter >= 0,
            iter == 0 ==> state is StartNewMatch && st.cur_o_pos == p0 && st.ops@.len() == k0,
            iter == 1 ==> state is TryMatch && st.cur_o_pos == p0 && st.ops@.len() == k0 && st.min_match == MIN_MATCH_VALUE
                && (first_run ==> st.run_len == MIN_MATCH_VALUE && st.run_byte == trgt@[p0]),
            iter >= 2 && first_run ==> st.ops@.len() > k0 && st.ops@[k0] == run_op,
            st.max_trgt_match_len == max_trgt_match_len,
            max_trgt_match_len <= trgt_len,
            trgt_len == trgt@.len(),
            prepended == (max_trgt_match_len < trgt_len),
            prepended ==> max_trgt_match_len + src@.len() == trgt_len
                && trgt@.subrange(max_trgt_match_len as int, trgt_len as int) == src@,
            forall|i: int| 0 <= i < st.ops@.len() ==> op_length(#[trigger] st.ops@[i]) >= 1,
            appended ==> st.ops@.len() >= 1 && st.ops@[0] == (InnerOp::MatchSrc { start: 0, length: src_len, o_pos: 0 }),
            appended ==> !prepended,
            src_len == src@.len(),
            state matches EncoderState::FoundMatch { match_len } ==> match_len >= MIN_MATCH_VALUE
                && st.cur_o_pos + match_len <= trgt_len && match_len >= st.min_match,
        ensures
            st.cur_o_pos + MIN_MATCH_VALUE >= max_trgt_match_len,
        decreases trgt_len - st.cur_o_pos, state_rank(state),
    {
        if st.cur_o_pos + MIN_MATCH_VALUE >= st.max_trgt_match_len {
            break;
        }
        let ghost ops_pre = st.ops@;
        let ghost st_pre = st;
        let ghost state_pre = state;
        state = match state {
            EncoderState::StartNewMatch => {
                st.start_new_match(src, trgt);
                proof {
                    if iter == 0 && first_run {
                        let seg = trgt@.subrange(p0, trgt@.len() as int);
                        let r = st.run_len as int;
                        assert(seg[0] == trgt@[p0]);
                        assert(seg[1] == trgt@[p0 + 1]);
                        assert(seg[2] == trgt@[p0 + 2]);
                        assert(seg[3] == trgt@[p0 + 3]);
                        assert(r == 1 ==> seg[2] != seg[3]);
                        assert(r == 2 ==> seg[1] != seg[3]);
                        assert(r == 3 ==> seg[0] != seg[3]);
                    }
                    if iter == 0 && src_first {
                        let seg = trgt@.subrange(p0, trgt@.len() as int);
                        if st.run_len == MIN_MATCH_VALUE {
                            assert(seg[4 - 1 - 1] == seg[3]);
                            assert(seg[4 - 1 - 2] == seg[3]);
                            assert(seg[4 - 1 - 3] == seg[3]);
                            assert(four_alike(trgt@, 0));
                        }
                    }
                }
                EncoderState::TryMatch
            },
            EncoderState::TryMatch => {
                proof {
                    if appended {
                        st.lemma_try_keeps_first(src@, trgt@);
                    }
                    lemma_ops_before_prefix(st.ops@, st.cur_o_pos - 1);
                    if let Some((sp, pre, post)) = st.src_found(src@, trgt@) {
                        lemma_ops_before_prefix(st.ops@, st.cur_o_pos - pre);
                    }
                    lemma_run_end_ge(trgt@, st.cur_o_pos + MIN_MATCH_VALUE, st.run_byte);
                }
                let ghost st0 = st;
                let r = st.try_match(src, trgt);
                proof {
                    if first_run && iter == 1 {
                        assert(st0.run_after(trgt@) >= MIN_MATCH_VALUE);
                        assert(st0.ops@ == ops_pre);
                        assert(st0.run_len == MIN_MATCH_VALUE);
                        assert(st0.min_match == MIN_MATCH_VALUE);
                        assert(st0.try_outcome(src@, trgt@).1 == ops_pre.push(InnerOp::Run { byte: st0.run_byte, length: st0.run_after(trgt@), o_pos: st0.cur_o_pos }));
                        assert(st.ops@ == ops_pre.push(run_op));
                    }
                    if first_run && iter >= 2 {
                        if no_src {
                            assert(st0.src_matcher is None);
                            assert(st0.src_found(src@, trgt@) is None);
                        } else {
                            st0.lemma_try_keeps_first(src@, trgt@);
                        }
                        assert(st.ops@[k0] == ops_pre[k0]);
                    }
                    if src_first && iter >= 2 {
                        st0.lemma_try_keeps_first(src@, trgt@);
                    }
                    if src_first && iter == 1 {
                        lemma_src_prefix_found(st0, src@, trgt@);
                        assert(st.ops@ =~= seq![src_op]);
                    }
                    assert forall|i: int| k0 <= i < st.ops@.len() implies op_pos(#[trigger] st.ops@[i]) + MIN_MATCH_VALUE < max_trgt_match_len by {
                        if i < st.ops@.len() - 1 {
                            if let Some((sp, pre, post)) = st0.src_found(src@, trgt@) {
                                if post >= st0.min_match && !(st0.run_len == MIN_MATCH_VALUE && st0.run_after(trgt@) >= st0.min_match) && pre > 0 {
                                    assert(st.ops@[i] == ops_pre[i]);
                                }
                            }
                        }
                    }
                }
                r
            },
            EncoderState::FoundMatch { match_len } => {
                if lazy_escape_len > 0 && match_len < lazy_escape_len && st.cur_o_pos + match_len < st.max_trgt_match_len - 1 {
                    st.min_match = match_len;
                    EncoderState::MoveForwardOneByte
                } else {
                    st.cur_o_pos = st.cur_o_pos + match_len;
                    EncoderState::StartNewMatch
                }
            },
            EncoderState::MoveForwardOneByte => {
                st.move_forward(src, trgt);
                EncoderState::TryMatch
            },
        };
        proof {
            iter = iter + 1;
            assert(scan_step(src@, trgt@, lazy, st_pre, state_pre, st, state));
            let t2 = trace.push((st, state));
            assert forall|i: int| 0 <= i < t2.len() - 1 implies #[trigger] trace_step_ok(src@, trgt@, lazy, t2, i) by {
                if i < trace.len() - 1 {
                    assert(trace_step_ok(src@, trgt@, lazy, trace, i));
                    assert(t2[i] == trace[i] && t2[i + 1] == trace[i + 1]);
                } else {
                    assert(t2[i] == (st_pre, state_pre));
                }
            }
            trace = t2;
        }
    }
    let mut ops = st.ops;
    let ghost found = ops@;
    if max_trgt_match_len < trgt_len {
        ops.push(InnerOp::MatchSrc { start: 0, length: src_len, o_pos: max_trgt_match_len });
        proof {
            assert forall|i: int| 0 <= i < ops@.len() - 1 implies op_pos(#[trigger] ops@[i]) < trgt@.len() - src@.len() by {
                assert(ops@[i] == found[i]);
            }
        }
    }
    proof {
        assert forall|i: int| 0 <= i < ops@.len() && (#[trigger] ops@[i]) is Run implies op_length(ops@[i]) >= MIN_MATCH_VALUE by {
            if i < found.len() {
                assert(ops@[i] == found[i]);
            }
        }
        assert forall|i: int| k0 <= i < ops@.len() - (if prepended { 1int } else { 0 })
            implies op_pos(#[trigger] ops@[i]) + MIN_MATCH_VALUE < max_trgt_match_len by {
            assert(ops@[i] == found[i]);
        }
        if first_run {
            assert(iter >= 2);
            assert(ops@[k0] == found[k0]);
        }
        assert(scan_trace(*old(config), src@, trgt@, trace));
        assert(ops@ == scan_result(*old(config), src@, trgt@, trace.last().0));
    }
    ops
}

} // verus!