//! Finds occurrences, in the source (dictionary), of the bytes at the current target
//! position, through a table of 9 byte checksums of (some) source positions. The
//! hashed part of the source is a window that slides with the target position.
use vstd::prelude::*;
use core::ops::Range;
use crate::encoder::hasher::{calculate_large_checksum, update_large_checksum_bwd, large_checksum, large_bwd, lemma_large_bwd, lemma_large_checksum_first9};
use crate::encoder::hashmap::{BasicHashTable, slot_for, table_bits_ok};
use crate::encoder::trgt_matcher::match_len;
use crate::encoder::ranger::{ranger_map_spec, Ranger};

verus! {

/// Default size of the source window.
pub const DEFAULT_SRC_WIN_SIZE: usize = 67108864;
/// Smallest size of the source window.
pub const MIN_SRC_WIN_SIZE: usize = 1048576;

/// `pos` rounded down to a multiple of `l_step`.
pub open spec fn align_spec(pos: int, l_step: int) -> int {
    pos - pos % l_step
}

/// `pos` rounded down to a multiple of `l_step`.
pub fn align(pos: usize, l_step: usize) -> (r: usize)
    requires
        l_step > 0,
    ensures
        r == align_spec(pos as int, l_step as int),
        r <= pos,
        r % l_step == 0,
{
    proof {
        assert((pos - pos % l_step) % (l_step as int) == 0) by (nonlinear_arith)
            requires l_step > 0;
        assert(pos % l_step <= pos) by (nonlinear_arith)
            requires l_step > 0;
    }
    pos - (pos % l_step)
}

/// The smallest power of two that is at least `x` (1 for 0).
pub open spec fn is_next_pow2(x: int, r: int) -> bool {
    &&& r >= 1
    &&& r >= x
    &&& r == 1 || r / 2 < x
    &&& exists|k: nat| r == vstd::arithmetic::power2::pow2(k)
}

/// The smallest power of two that is at least `x`.
pub fn next_power_of_two(x: usize) -> (r: usize)
    requires
        x <= usize::MAX / 2 + 1,
    ensures
        is_next_pow2(x as int, r as int),
{
    let mut p: usize = 1;
    let ghost mut k: nat = 0;
    proof {
        vstd::arithmetic::power2::lemma2_to64();
    }
    while p < x
        invariant
            1 <= p,
            p == vstd::arithmetic::power2::pow2(k),
            x <= usize::MAX / 2 + 1,
            p == 1 || p / 2 < x,
        decreases usize::MAX - p,
    {
        proof {
            vstd::arithmetic::power2::lemma_pow2_unfold(k + 1);
        }
        p = p * 2;
        proof {
            k = k + 1;
        }
    }
    p
}

/// Number of equal bytes just before `x` at `i` and `y` at `j` (going back), up to `max`.
pub open spec fn match_back_len(x: Seq<u8>, i: int, y: Seq<u8>, j: int, max: int) -> int
    decreases max,
{
    if max <= 0 || x[i - 1] != y[j - 1] {
        0
    } else {
        1 + match_back_len(x, i - 1, y, j - 1, max - 1)
    }
}

/// The (pre_match, post_match) of a source match at `ss` for the target at `ts`: None unless
/// the 9 bytes there are equal; else the equal bytes before them (fewer than the smaller
/// start) and after them (up to either end).
pub open spec fn src_extension(src: Seq<u8>, ss: int, trgt: Seq<u8>, ts: int) -> Option<(usize, usize)> {
    if match_len(src, ss, trgt, ts, 9) < 9 {
        None
    } else {
        let min_offset = if ss < ts { ss } else { ts };
        let pre_max = if min_offset > 1 { min_offset - 1 } else { 0 };
        let src_remain = src.len() - (ss + 9);
        let trgt_remain = trgt.len() - (ts + 9);
        let post_max = if src_remain < trgt_remain { src_remain } else { trgt_remain };
        Some((match_back_len(src, ss, trgt, ts, pre_max) as usize, match_len(src, ss + 9, trgt, ts + 9, post_max) as usize))
    }
}

/// Returns the (pre_match, post_match) for the given src and trgt data: the 9 bytes at the
/// two starts must be equal (else None); pre_match counts the equal bytes just before them
/// (fewer than the smaller start), post_match the equal bytes just after them.
pub fn extend_src_match(src: &[u8], src_start: usize, trgt: &[u8], trgt_start: usize) -> (r: Option<(usize, usize)>)
    requires
        src_start + 9 <= src.len(),
        trgt_start + 9 <= trgt.len(),
    ensures
        r == src_extension(src@, src_start as int, trgt@, trgt_start as int),
        match r {
            None => src@.subrange(src_start as int, src_start + 9) != trgt@.subrange(trgt_start as int, trgt_start + 9),
            Some((pre, post)) => {
                let min_offset = if src_start < trgt_start { src_start as int } else { trgt_start as int };
                let pre_max = if min_offset > 1 { min_offset - 1 } else { 0 };
                let post_max = if src@.len() - src_start - 9 < trgt@.len() - trgt_start - 9 { src@.len() - src_start - 9 } else { trgt@.len() - trgt_start - 9 };
                &&& src@.subrange(src_start as int, src_start + 9) == trgt@.subrange(trgt_start as int, trgt_start + 9)
                &&& pre <= pre_max
                &&& src@.subrange(src_start - pre, src_start as int) == trgt@.subrange(trgt_start - pre, trgt_start as int)
                &&& pre < pre_max ==> src@[src_start - pre - 1] != trgt@[trgt_start - pre - 1]
                &&& post <= post_max
                &&& src@.subrange(src_start + 9, src_start + 9 + post) == trgt@.subrange(trgt_start + 9, trgt_start + 9 + post)
                &&& post < post_max ==> src@[src_start + 9 + post] != trgt@[trgt_start + 9 + post]
            },
        },
{
    let initial = crate::encoder::trgt_matcher::match_forward(src, src_start, trgt, trgt_start, 9);
    if initial < 9 {
        proof {
            assert(src@.subrange(src_start as int, src_start + 9)[initial as int] == src@[src_start + initial]);
            assert(trgt@.subrange(trgt_start as int, trgt_start + 9)[initial as int] == trgt@[trgt_start + initial]);
        }
        return None;
    }
    let min_offset = if src_start < trgt_start { src_start } else { trgt_start };
    let pre_max = if min_offset > 1 { min_offset - 1 } else { 0 };
    let mut pre: usize = 0;
    while pre < pre_max && src[src_start - pre - 1] == trgt[trgt_start - pre - 1]
        invariant
            pre <= pre_max,
            pre_max <= src_start,
            pre_max <= trgt_start,
            src_start + 9 <= src.len(),
            trgt_start + 9 <= trgt.len(),
            src@.subrange(src_start - pre, src_start as int) == trgt@.subrange(trgt_start - pre, trgt_start as int),
            match_back_len(src@, src_start as int, trgt@, trgt_start as int, pre_max as int)
                == pre + match_back_len(src@, src_start - pre, trgt@, trgt_start - pre, pre_max - pre),
        decreases pre_max - pre,
    {
        proof {
            assert(src@.subrange(src_start - pre - 1, src_start as int) =~= seq![src@[src_start - pre - 1]] + src@.subrange(src_start - pre, src_start as int));
            assert(trgt@.subrange(trgt_start - pre - 1, trgt_start as int) =~= seq![trgt@[trgt_start - pre - 1]] + trgt@.subrange(trgt_start - pre, trgt_start as int));
        }
        pre = pre + 1;
    }
    let src_end = src_start + 9;
    let trgt_end = trgt_start + 9;
    let src_remain = src.len() - src_end;
    let trgt_remain = trgt.len() - trgt_end;
    let max = if src_remain < trgt_remain { src_remain } else { trgt_remain };
    let post = crate::encoder::trgt_matcher::match_forward(src, src_end, trgt, trgt_end, max);
    Some((pre, post))
}

/// The positions to hash next, or None: see the body; it slides a window over the source in
/// step with where the target position falls in it.
pub open spec fn window_range_spec(
    cur_o_pos: int,
    src_len: int,
    trgt_len: int,
    half_win_size: int,
    max_end_pos: int,
    cur_window_end: int,
    l_step: int,
    max_match_end: int,
) -> Option<(int, int)> {
    if cur_o_pos < half_win_size {
        Some((0, if 2 * half_win_size < max_end_pos { 2 * half_win_size } else { max_end_pos }))
    } else if cur_window_end >= max_end_pos {
        None
    } else {
        let scaled_src_pos = cur_o_pos * src_len / trgt_len;
        let capped = if scaled_src_pos + half_win_size < max_end_pos { scaled_src_pos + half_win_size } else { max_end_pos };
        let scaled_end = align_spec(capped, l_step);
        if scaled_end <= cur_window_end || scaled_end <= max_match_end {
            None
        } else {
            let max_diff_start = if scaled_end > 2 * half_win_size { scaled_end - 2 * half_win_size } else { 0 };
            let m1 = if cur_window_end > max_match_end { cur_window_end } else { max_match_end };
            let m2 = if m1 > max_diff_start { m1 } else { max_diff_start };
            Some((align_spec(m2, l_step), scaled_end))
        }
    }
}

/// The range of source positions to hash for output position `cur_o_pos`, if any.
#[verifier::spinoff_prover]
pub fn calculate_window_range(
    cur_o_pos: usize,
    src_len: usize,
    trgt_len: usize,
    half_win_size: usize,
    max_end_pos: usize,
    cur_window_end: usize,
    l_step: usize,
    max_match_end: usize,
) -> (r: Option<Range<usize>>)
    requires
        l_step > 0,
        trgt_len > 0,
        cur_o_pos <= trgt_len,
        half_win_size <= usize::MAX / 4,
    ensures
        match window_range_spec(cur_o_pos as int, src_len as int, trgt_len as int, half_win_size as int, max_end_pos as int,
            cur_window_end as int, l_step as int, max_match_end as int) {
            None => r is None,
            Some((s, e)) => r matches Some(range) && range.start == s && range.end == e,
        },
        r matches Some(range) ==> range.start <= range.end <= max_end_pos && range.start % l_step == 0,
{
    if cur_o_pos < half_win_size {
        let double = half_win_size * 2;
        let end = if double < max_end_pos { double } else { max_end_pos };
        proof {
            vstd::arithmetic::div_mod::lemma_small_mod(0, l_step as nat);
        }
        return Some(0..end);
    } else if cur_window_end >= max_end_pos {
        return None;
    }
    proof {
        assert(cur_o_pos as int * src_len as int / trgt_len as int <= src_len) by (nonlinear_arith)
            requires cur_o_pos <= trgt_len, trgt_len > 0, src_len >= 0;
    }
    proof {
        assert(cur_o_pos as u128 * src_len as u128 <= u128::MAX) by (nonlinear_arith)
            requires cur_o_pos <= u64::MAX, src_len <= u64::MAX;
    }
    let scaled_src_pos = ((cur_o_pos as u128 * src_len as u128) / trgt_len as u128) as usize;
    let capped = if scaled_src_pos < max_end_pos && max_end_pos - scaled_src_pos > half_win_size {
        scaled_src_pos + half_win_size
    } else {
        max_end_pos
    };
    let scaled_end = align(capped, l_step);
    if scaled_end <= cur_window_end || scaled_end <= max_match_end {
        return None;
    }
    let double = half_win_size * 2;
    let max_diff_start = if scaled_end > double { scaled_end - double } else { 0 };
    let m1 = if cur_window_end > max_match_end { cur_window_end } else { max_match_end };
    let m2 = if m1 > max_diff_start { m1 } else { max_diff_start };
    let scaled_start = align(m2, l_step);
    Some(scaled_start..scaled_end)
}

/// The window size from the rounded sizes: the difference's power of two (raised by the
/// minimum window when it is that small), capped by the source's power of two and the
/// (rounded) maximum window.
pub open spec fn default_win_size_spec(diff_pow: int, src_pow: int, cap: int) -> int {
    let w = if diff_pow <= MIN_SRC_WIN_SIZE { diff_pow + MIN_SRC_WIN_SIZE } else { diff_pow };
    let upper = if src_pow < cap { src_pow } else { cap };
    if w < upper { w } else { upper }
}

/// The window size the encoder would pick for sources and targets of these lengths.
pub fn calculate_default_win_size(src_len: usize, trgt_len: usize, max_win_size: Option<usize>) -> (r: usize)
    requires
        src_len <= usize::MAX / 4,
        trgt_len <= usize::MAX / 4,
        max_win_size matches Some(m) ==> m <= usize::MAX / 4,
    ensures
        exists|dp: int, sp: int, cp: int| {
            &&& is_next_pow2(if src_len > trgt_len { src_len - trgt_len } else { trgt_len - src_len }, dp)
            &&& is_next_pow2(src_len as int, sp)
            &&& match max_win_size {
                None => cp == DEFAULT_SRC_WIN_SIZE,
                Some(m) => is_next_pow2(m as int, cp),
            }
            &&& r == default_win_size_spec(dp, sp, cp)
        },
{
    let diff = if src_len > trgt_len { src_len - trgt_len } else { trgt_len - src_len };
    let diff_pow = next_power_of_two(diff);
    let win_size = if diff_pow <= MIN_SRC_WIN_SIZE { diff_pow + MIN_SRC_WIN_SIZE } else { diff_pow };
    let cap = match max_win_size {
        Some(a) => next_power_of_two(a),
        None => DEFAULT_SRC_WIN_SIZE,
    };
    let src_pow = next_power_of_two(src_len);
    let upper_bound = if src_pow < cap { src_pow } else { cap };
    let r = if win_size < upper_bound { win_size } else { upper_bound };
    proof {
        assert(r == default_win_size_spec(diff_pow as int, src_pow as int, cap as int));
        assert(is_next_pow2(diff as int, diff_pow as int));
        assert(is_next_pow2(src_len as int, src_pow as int));
    }
    r
}


/// Finds matches in the source for the current (forward) target position.
pub struct SrcMatcher {
    pub l_step: usize,
    pub fwd_hash: u64,
    pub fwd_pos: usize,
    pub max_fwd_hash_pos: usize,
    pub table: BasicHashTable,
    pub src_len: usize,
    pub trgt_len: usize,
    pub half_win_size: usize,
    pub max_end_pos: usize,
    pub cur_window_end: usize,
    pub next_hash_pos: usize,
    pub max_match_pos: usize,
}

/// `src[sp - pre..sp + post]` equals `trgt[tp - pre..tp + post]`: a Copy from the source.
pub open spec fn src_match_ok(src: Seq<u8>, trgt: Seq<u8>, sp: int, tp: int, pre: int, post: int) -> bool {
    &&& 0 <= pre <= sp
    &&& pre <= tp
    &&& sp + post <= src.len()
    &&& tp + post <= trgt.len()
    &&& src.subrange(sp - pre, sp + post) == trgt.subrange(tp - pre, tp + post)
}

impl SrcMatcher {
    /// Every stored position is a source position at which 9 bytes can be read.
    pub open spec fn wf(&self) -> bool {
        &&& self.table.wf()
        &&& !self.table.hash_32_bit_spec()
        &&& self.l_step >= 1
        &&& self.half_win_size <= usize::MAX / 4
        &&& self.max_end_pos + 9 <= self.src_len || self.max_end_pos == 0
        &&& forall|i: int| 0 <= i < self.table.slots().len() ==> (#[trigger] self.table.slots()[i] matches Some((h, v))
            ==> v * self.l_step + 9 <= self.src_len)
    }

    /// What `find_best_src_match` returns: nothing when the table holds no position for the
    /// current hash, else the extension of the match at that (absolute) source position.
    pub open spec fn best_src_match(&self, src: Seq<u8>, trgt: Seq<u8>) -> Option<(usize, usize, usize)> {
        match self.table.lookup(self.fwd_hash) {
            None => None,
            Some(tp) => match src_extension(src, tp * self.l_step, trgt, self.fwd_pos as int) {
                None => None,
                Some((pre, post)) => Some(((tp * self.l_step) as usize, pre, (post + 9) as usize)),
            },
        }
    }

    /// Returns (src_pos, pre_match, post_match) post_match *includes* the hash_win_len:
    /// the source position stored for the current hash, checked against the bytes and
    /// extended both ways.
    pub fn find_best_src_match(&mut self, src: &[u8], trgt: &[u8]) -> (r: Option<(usize, usize, usize)>)
        requires
            old(self).wf(),
            old(self).src_len == src.len(),
            old(self).fwd_pos + 9 <= trgt.len(),
        ensures
            *final(self) == *old(self),
            r == old(self).best_src_match(src@, trgt@),
            r matches Some((sp, pre, post)) ==> post >= 9
                && src_match_ok(src@, trgt@, sp as int, old(self).fwd_pos as int, pre as int, post as int),
    {
        let table_pos = match self.table.get(self.fwd_hash) {
            Some(p) => p,
            None => return None,
        };
        proof {
            assert(self.table.slots()[self.table.slot_of(self.fwd_hash)] matches Some((h, v)) && v == table_pos);
            assert(table_pos * self.l_step + 9 <= self.src_len);
        }
        let src_pos = self.table_to_abs_pos(table_pos);
        match extend_src_match(src, src_pos, trgt, self.fwd_pos) {
            Some((pre_match, post_match)) => {
                let total_post_match = post_match + 9;
                proof {
                    let s = src@;
                    let t = trgt@;
                    let tp = self.fwd_pos as int;
                    assert(s.subrange(src_pos - pre_match, src_pos + total_post_match) =~= s.subrange(src_pos - pre_match, src_pos as int)
                        + s.subrange(src_pos as int, src_pos + 9) + s.subrange(src_pos + 9, src_pos + 9 + post_match));
                    assert(t.subrange(tp - pre_match, tp + total_post_match) =~= t.subrange(tp - pre_match, tp)
                        + t.subrange(tp, tp + 9) + t.subrange(tp + 9, tp + 9 + post_match));
                }
                Some((src_pos, pre_match, total_post_match))
            },
            None => None,
        }
    }

    /// Positions returned from the table are in table space, this converts them to absolute start positions.
    /// In other words, the table_pos is multiplied by l_step to get the absolute position.
    pub fn table_to_abs_pos(&self, table_pos: usize) -> (r: usize)
        requires
            table_pos * self.l_step <= usize::MAX,
        ensures
            r == table_pos * self.l_step,
    {
        table_pos * self.l_step
    }

    fn abs_to_table_pos(&self, abs_pos: usize) -> (r: usize)
        requires
            self.l_step >= 1,
            abs_pos % self.l_step == 0,
        ensures
            r * self.l_step == abs_pos,
            r == abs_pos / self.l_step,
            r <= abs_pos,
    {
        proof {
            assert((abs_pos / self.l_step) * self.l_step == abs_pos) by (nonlinear_arith)
                requires abs_pos % self.l_step == 0, self.l_step >= 1;
            assert(abs_pos / self.l_step <= abs_pos) by (nonlinear_arith)
                requires self.l_step >= 1;
        }
        abs_pos / self.l_step
    }

    /// Stores the (aligned) source position `abs_pos` for `hash`.
    fn store(&mut self, hash: u64, abs_pos: usize)
        requires
            old(self).wf(),
            abs_pos % old(self).l_step == 0,
            abs_pos + 9 <= old(self).src_len,
        ensures
            final(self).wf(),
            final(self).l_step == old(self).l_step,
            final(self).src_len == old(self).src_len,
            final(self).trgt_len == old(self).trgt_len,
            final(self).fwd_pos == old(self).fwd_pos,
            final(self).fwd_hash == old(self).fwd_hash,
            final(self).max_fwd_hash_pos == old(self).max_fwd_hash_pos,
            final(self).half_win_size == old(self).half_win_size,
            final(self).max_end_pos == old(self).max_end_pos,
            final(self).cur_window_end == old(self).cur_window_end,
            final(self).next_hash_pos == old(self).next_hash_pos,
            final(self).max_match_pos == old(self).max_match_pos,
            final(self).table.hash_32_bit_spec() == old(self).table.hash_32_bit_spec(),
            final(self).table.size_bits() == old(self).table.size_bits(),
            forall|h: u64| final(self).table.slot_of(h) == old(self).table.slot_of(h),
            0 <= old(self).table.slot_of(hash) < old(self).table.slots().len(),
            final(self).table.slots() == old(self).table.slots().update(old(self).table.slot_of(hash),
                Some((hash, (abs_pos / old(self).l_step) as usize))),
    {
        let table_pos = self.abs_to_table_pos(abs_pos);
        let _ = self.table.insert(hash, table_pos);
        proof {
            assert forall|i: int| 0 <= i < self.table.slots().len() implies (#[trigger] self.table.slots()[i] matches Some((h, v))
                ==> v * self.l_step + 9 <= self.src_len) by {
                if i != old(self).table.slot_of(hash) {
                    assert(self.table.slots()[i] == old(self).table.slots()[i]);
                }
            }
        }
    }
}

/// Moving the 9-byte window of `src` back from `pos + 1` to `pos` gives its checksum.
proof fn lemma_window_back(src: Seq<u8>, pos: int)
    requires
        0 <= pos,
        pos + 10 <= src.len(),
    ensures
        large_bwd(large_checksum(src.subrange(pos + 1, pos + 10)), src[pos + 9], src[pos]) == large_checksum(src.subrange(pos, pos + 9)),
{
    let w = src.subrange(pos, pos + 10);
    assert(w.drop_first() =~= src.subrange(pos + 1, pos + 10));
    lemma_large_bwd(w);
    lemma_large_checksum_first9(w);
    assert(w.subrange(0, 9) =~= src.subrange(pos, pos + 9));
}

/// The slots of table `t` after storing, from the last down to `lo`, the positions of
/// `[lo, hi)` that are multiples of `l`, each under the checksum of the 9 source bytes there
/// and as its table position (`p / l`).
pub open spec fn fill_slots(t: BasicHashTable, slots: Seq<Option<(u64, usize)>>, src: Seq<u8>, l: int, lo: int, hi: int)
    -> Seq<Option<(u64, usize)>>
    decreases hi - lo,
{
    if hi <= lo || l <= 0 {
        slots
    } else {
        let p = hi - 1;
        let next = if p % l == 0 {
            let h = large_checksum(src.subrange(p, p + 9));
            slots.update(t.slot_of(h), Some((h, (p / l) as usize)))
        } else {
            slots
        };
        fill_slots(t, next, src, l, lo, p)
    }
}

/// Where the hashing of the window `[s, e)` with step `l` stops (exclusive): at `e` when the
/// step is at least 9, else at the last aligned position that leaves 9 bytes before `e`.
pub open spec fn window_fill_end(s: int, e: int, l: int) -> int {
    if s >= e {
        s
    } else if l >= 9 {
        e
    } else if e < 9 {
        s
    } else {
        align_spec(e - 9, l)
    }
}

/// The window of source positions to hash at output position `cur`, if any.
pub open spec fn window_at(m: SrcMatcher, cur: int) -> Option<(int, int)> {
    window_range_spec(cur, m.src_len as int, m.trgt_len as int, m.half_win_size as int, m.max_end_pos as int,
        m.cur_window_end as int, m.l_step as int, m.max_match_pos as int)
}

/// The table's slots after `add_start_positions_to_matcher` at `cur`.
pub open spec fn slots_after_adding(m: SrcMatcher, cur: int, src: Seq<u8>) -> Seq<Option<(u64, usize)>> {
    if cur < m.next_hash_pos {
        m.table.slots()
    } else {
        match window_at(m, cur) {
            None => m.table.slots(),
            Some((s, e)) => fill_slots(m.table, m.table.slots(), src, m.l_step as int, s, window_fill_end(s, e, m.l_step as int)),
        }
    }
}

/// The next output position at which `add_start_positions_to_matcher` hashes, after it ran at
/// `cur`: never again once the window reached the end of what can be hashed.
pub open spec fn next_hash_after(m: SrcMatcher, cur: int) -> usize {
    if cur < m.next_hash_pos {
        m.next_hash_pos
    } else {
        match window_at(m, cur) {
            None => m.next_hash_pos,
            Some((s, e)) => if e >= m.max_end_pos {
                usize::MAX
            } else if cur + m.half_win_size <= usize::MAX {
                (cur + m.half_win_size) as usize
            } else {
                usize::MAX
            },
        }
    }
}

/// Filling `[lo, hi)` is filling `[mid, hi)` and then `[lo, mid)`.
pub proof fn lemma_fill_split(t: BasicHashTable, slots: Seq<Option<(u64, usize)>>, src: Seq<u8>, l: int, lo: int, mid: int, hi: int)
    requires
        lo <= mid <= hi,
    ensures
        fill_slots(t, slots, src, l, lo, hi) == fill_slots(t, fill_slots(t, slots, src, l, mid, hi), src, l, lo, mid),
    decreases hi - mid,
{
    if hi > mid && l > 0 {
        let p = hi - 1;
        let next = if p % l == 0 {
            let h = large_checksum(src.subrange(p, p + 9));
            slots.update(t.slot_of(h), Some((h, (p / l) as usize)))
        } else {
            slots
        };
        lemma_fill_split(t, next, src, l, lo, mid, p);
    }
}

/// Filling depends on the table only through where it puts each hash.
pub proof fn lemma_fill_same_slots(t1: BasicHashTable, t2: BasicHashTable, slots: Seq<Option<(u64, usize)>>, src: Seq<u8>, l: int, lo: int, hi: int)
    requires
        forall|h: u64| #[trigger] t1.slot_of(h) == t2.slot_of(h),
    ensures
        fill_slots(t1, slots, src, l, lo, hi) == fill_slots(t2, slots, src, l, lo, hi),
    decreases hi - lo,
{
    if hi > lo && l > 0 {
        let p = hi - 1;
        let next = if p % l == 0 {
            let h = large_checksum(src.subrange(p, p + 9));
            slots.update(t1.slot_of(h), Some((h, (p / l) as usize)))
        } else {
            slots
        };
        lemma_fill_same_slots(t1, t2, next, src, l, lo, p);
    }
}

/// Filling one position stores it when it is aligned.
proof fn lemma_fill_one(t: BasicHashTable, slots: Seq<Option<(u64, usize)>>, src: Seq<u8>, l: int, p: int)
    requires
        l > 0,
    ensures
        fill_slots(t, slots, src, l, p, p + 1) == (if p % l == 0 {
            let h = large_checksum(src.subrange(p, p + 9));
            slots.update(t.slot_of(h), Some((h, (p / l) as usize)))
        } else {
            slots
        }),
{
    let next = if p % l == 0 {
        let h = large_checksum(src.subrange(p, p + 9));
        slots.update(t.slot_of(h), Some((h, (p / l) as usize)))
    } else {
        slots
    };
    assert(fill_slots(t, next, src, l, p, p) == next);
}

/// Filling a range with no aligned position changes nothing.
proof fn lemma_fill_unaligned(t: BasicHashTable, slots: Seq<Option<(u64, usize)>>, src: Seq<u8>, l: int, p: int, hi: int)
    requires
        l > 0,
        p >= 0,
        p % l == 0,
        p < hi <= p + l,
    ensures
        fill_slots(t, slots, src, l, p + 1, hi) == slots,
    decreases hi - p,
{
    if hi > p + 1 {
        let q = hi - 1;
        assert(q % l != 0) by {
            vstd::arithmetic::div_mod::lemma_fundamental_div_mod(p, l);
            vstd::arithmetic::div_mod::lemma_mod_multiples_vanish(p / l, q - p, l);
            vstd::arithmetic::div_mod::lemma_small_mod((q - p) as nat, l as nat);
        }
        lemma_fill_unaligned(t, slots, src, l, p, q);
    }
}

/// Whether hashing the window `[s, e)` stores its first position `s` (with step `l`): the
/// positions taken run from the last aligned one that leaves 9 bytes before `e` (from `e - 1`
/// when the step is at least 9) down to `s`, this one included.
pub open spec fn window_start_stored(s: int, e: int, l: int) -> bool {
    if l >= 9 { s < e } else { e >= 9 && align_spec(e - 9, l) > s }
}

/// Hashes and stores the source positions of the window for output position `cur_o_pos`,
/// if it is time to (the window moves by half its size), latest position first so that the
/// positions nearest the start win collisions.
#[verifier::rlimit(40)]
pub fn add_start_positions_to_matcher(matcher: &mut SrcMatcher, cur_o_pos: usize, src: &[u8])
    requires
        old(matcher).wf(),
        old(matcher).src_len == src.len(),
        old(matcher).trgt_len > 0,
        cur_o_pos <= old(matcher).trgt_len,
    ensures
        final(matcher).wf(),
        final(matcher).l_step == old(matcher).l_step,
        final(matcher).src_len == old(matcher).src_len,
        final(matcher).trgt_len == old(matcher).trgt_len,
        final(matcher).fwd_pos == old(matcher).fwd_pos,
        final(matcher).fwd_hash == old(matcher).fwd_hash,
        final(matcher).max_fwd_hash_pos == old(matcher).max_fwd_hash_pos,
        final(matcher).half_win_size == old(matcher).half_win_size,
        final(matcher).max_end_pos == old(matcher).max_end_pos,
        final(matcher).cur_window_end == old(matcher).cur_window_end,
        final(matcher).max_match_pos == old(matcher).max_match_pos,
        cur_o_pos < old(matcher).next_hash_pos ==> *final(matcher) == *old(matcher),
        cur_o_pos >= old(matcher).next_hash_pos ==> (match window_range_spec(cur_o_pos as int, old(matcher).src_len as int,
            old(matcher).trgt_len as int, old(matcher).half_win_size as int, old(matcher).max_end_pos as int,
            old(matcher).cur_window_end as int, old(matcher).l_step as int, old(matcher).max_match_pos as int) {
                Some((s, e)) => window_start_stored(s, e, old(matcher).l_step as int)
                    ==> final(matcher).table.lookup(large_checksum(src@.subrange(s, s + 9))) == Some((s / old(matcher).l_step as int) as usize),
                None => true,
            }),
        final(matcher).next_hash_pos == next_hash_after(*old(matcher), cur_o_pos as int),
        final(matcher).table.slots() == slots_after_adding(*old(matcher), cur_o_pos as int, src@),
        forall|h: u64| #[trigger] final(matcher).table.slot_of(h) == old(matcher).table.slot_of(h),
        final(matcher).table.hash_32_bit_spec() == old(matcher).table.hash_32_bit_spec(),
        final(matcher).table.size_bits() == old(matcher).table.size_bits(),
{
    if cur_o_pos < matcher.next_hash_pos {
        return;
    }
    let range = match calculate_window_range(cur_o_pos, matcher.src_len, matcher.trgt_len, matcher.half_win_size,
        matcher.max_end_pos, matcher.cur_window_end, matcher.l_step, matcher.max_match_pos) {
        Some(r) => r,
        None => return,
    };
    if range.end >= matcher.max_end_pos {
        matcher.next_hash_pos = usize::MAX;
    } else {
        matcher.next_hash_pos = if cur_o_pos <= usize::MAX - matcher.half_win_size {
            cur_o_pos + matcher.half_win_size
        } else {
            usize::MAX
        };
    }
    let start = range.start;
    let end = range.end;
    let ghost nhp = matcher.next_hash_pos;
    if start >= end {
        return;
    }
    let l_step = matcher.l_step;
    if l_step >= 9 {
        let count = (end - 1 - start) / l_step;
        proof {
            assert(count * l_step <= end - 1 - start) by (nonlinear_arith)
                requires count == (end - 1 - start) / (l_step as int), l_step >= 1, end - 1 - start >= 0;
        }
        proof {
            assert((count + 1) * l_step > end - 1 - start) by (nonlinear_arith)
                requires count == (end - 1 - start) / (l_step as int), l_step >= 1, end - 1 - start >= 0;
        }
        let mut k: usize = count;
        loop
            invariant_except_break
                matcher.table.slots() == fill_slots(old(matcher).table, old(matcher).table.slots(), src@, l_step as int,
                    if start + (k + 1) * l_step < end { start + (k + 1) * l_step } else { end as int }, end as int),
            invariant
                matcher.wf(),
                matcher.l_step == l_step,
                matcher.src_len == src.len(),
                k <= count,
                start + count * l_step <= end - 1,
                start % l_step == 0,
                end <= matcher.max_end_pos,
                l_step >= 9,
                matcher.max_end_pos + 9 <= matcher.src_len || matcher.max_end_pos == 0,
                matcher.trgt_len == old(matcher).trgt_len,
                matcher.fwd_pos == old(matcher).fwd_pos,
                matcher.fwd_hash == old(matcher).fwd_hash,
                matcher.max_fwd_hash_pos == old(matcher).max_fwd_hash_pos,
                matcher.half_win_size == old(matcher).half_win_size,
                matcher.cur_window_end == old(matcher).cur_window_end,
                matcher.max_match_pos == old(matcher).max_match_pos,
                matcher.max_end_pos == old(matcher).max_end_pos,
                matcher.next_hash_pos == nhp,
                forall|h: u64| #[trigger] matcher.table.slot_of(h) == old(matcher).table.slot_of(h),
                matcher.table.hash_32_bit_spec() == old(matcher).table.hash_32_bit_spec(),
                matcher.table.size_bits() == old(matcher).table.size_bits(),
            ensures
                matcher.table.lookup(large_checksum(src@.subrange(start as int, start + 9))) == Some((start / l_step) as usize),
                matcher.table.slots() == fill_slots(old(matcher).table, old(matcher).table.slots(), src@, l_step as int, start as int, end as int),
                forall|h: u64| #[trigger] matcher.table.slot_of(h) == old(matcher).table.slot_of(h),
                matcher.table.hash_32_bit_spec() == old(matcher).table.hash_32_bit_spec(),
                matcher.table.size_bits() == old(matcher).table.size_bits(),
            decreases k,
        {
            proof {
                assert(k * l_step <= count * l_step) by (nonlinear_arith)
                    requires k <= count, l_step >= 1;
                assert(k * l_step == l_step * k) by (nonlinear_arith);
                vstd::arithmetic::div_mod::lemma_mod_multiples_vanish(k as int, start as int, l_step as int);
            }
            let pos = start + k * l_step;
            let hash = calculate_large_checksum(&src[pos..pos + 9]);
            proof {
                let t0 = old(matcher).table;
                let s0 = old(matcher).table.slots();
                let hk: int = if start + (k + 1) * l_step < end { start + (k + 1) * l_step } else { end as int };
                assert(k * l_step + l_step == (k + 1) * l_step) by (nonlinear_arith);
                let x = fill_slots(t0, s0, src@, l_step as int, hk, end as int);
                lemma_fill_split(t0, s0, src@, l_step as int, pos as int, hk, end as int);
                lemma_fill_split(t0, x, src@, l_step as int, pos as int, pos + 1, hk);
                lemma_fill_unaligned(t0, x, src@, l_step as int, pos as int, hk);
                lemma_fill_one(t0, x, src@, l_step as int, pos as int);
            }
            matcher.store(hash, pos);
            if k == 0 {
                proof {
                    assert(k * l_step == 0) by (nonlinear_arith)
                        requires k == 0;
                    assert(pos == start);
                    assert(src@.subrange(pos as int, pos + 9) == src@.subrange(start as int, start + 9));
                }
                break;
            }
            k = k - 1;
        }
    } else {
        if end < 9 {
            return;
        }
        let aligned_last_hash = align(end - 9, l_step);
        let mut hash = calculate_large_checksum(&src[aligned_last_hash..end]);
        let mut pos = if aligned_last_hash > start { aligned_last_hash } else { start };
        let ghost pos0 = pos;
        proof {
            lemma_large_checksum_first9(src@.subrange(aligned_last_hash as int, end as int));
            assert(src@.subrange(aligned_last_hash as int, end as int).subrange(0, 9) =~= src@.subrange(aligned_last_hash as int, aligned_last_hash + 9));
        }
        while pos > start
            invariant
                aligned_last_hash > start ==> hash == large_checksum(src@.subrange(pos as int, pos + 9)),
                forall|h: u64| #[trigger] matcher.table.slot_of(h) == old(matcher).table.slot_of(h),
                matcher.table.hash_32_bit_spec() == old(matcher).table.hash_32_bit_spec(),
                matcher.table.size_bits() == old(matcher).table.size_bits(),
                matcher.table.slots() == fill_slots(old(matcher).table, old(matcher).table.slots(), src@, l_step as int, pos as int, pos0 as int),
                pos <= pos0,
                pos0 == (if aligned_last_hash > start { aligned_last_hash } else { start }),
                start % l_step == 0,
                pos < pos0 && pos % l_step == 0 ==> matcher.table.lookup(large_checksum(src@.subrange(pos as int, pos + 9)))
                    == Some((pos / l_step) as usize),
                matcher.wf(),
                matcher.l_step == l_step,
                matcher.src_len == src.len(),
                start <= pos,
                pos == start || pos <= aligned_last_hash,
                aligned_last_hash + 9 <= end,
                end <= matcher.max_end_pos,
                l_step >= 1,
                matcher.max_end_pos + 9 <= matcher.src_len || matcher.max_end_pos == 0,
                matcher.trgt_len == old(matcher).trgt_len,
                matcher.fwd_pos == old(matcher).fwd_pos,
                matcher.fwd_hash == old(matcher).fwd_hash,
                matcher.max_fwd_hash_pos == old(matcher).max_fwd_hash_pos,
                matcher.half_win_size == old(matcher).half_win_size,
                matcher.cur_window_end == old(matcher).cur_window_end,
                matcher.max_match_pos == old(matcher).max_match_pos,
                matcher.max_end_pos == old(matcher).max_end_pos,
                matcher.next_hash_pos == nhp,
            decreases pos,
        {
            pos = pos - 1;
            hash = update_large_checksum_bwd(hash, src[pos + 9], src[pos]);
            proof {
                lemma_window_back(src@, pos as int);
                lemma_fill_split(old(matcher).table, old(matcher).table.slots(), src@, l_step as int, pos as int, pos + 1, pos0 as int);
                lemma_fill_one(old(matcher).table, fill_slots(old(matcher).table, old(matcher).table.slots(), src@, l_step as int, pos + 1, pos0 as int),
                    src@, l_step as int, pos as int);
            }
            if pos % l_step == 0 {
                matcher.store(hash, pos);
            }
        }
    }
}

/// Configuration for the SrcMatcher.
#[derive(Debug, Clone, Copy)]
pub struct SrcMatcherConfig {
    /// How much to advance the Large Hash between storing a src hash.
    /// Larger value means faster, but might miss good matches.
    pub l_step: usize,
    /// The maximum size of the source window.
    /// This is how many bytes to assess and store hashes for.
    /// Larger values consider more matches, but might hash excessively slowing down encoder.
    /// Leave blank for dynamic calculation.
    pub max_src_win_size: Option<usize>,
}

impl Default for SrcMatcherConfig {
    fn default() -> (r: Self)
        ensures
            r.l_step == ranger_map_spec(0, 10, 26, 2, 3),
            r.max_src_win_size is None,
    {
        Self::comp_level(3)
    }
}

/// `n` empty table slots.
pub open spec fn empty_slots(n: nat) -> Seq<Option<(u64, usize)>> {
    Seq::new(n, |i: int| None)
}

/// The source window size a configuration settles on: the default when unset, else the
/// power of two at or above the given size, at least the minimum.
pub open spec fn src_win_for(c: SrcMatcherConfig, win: int) -> bool {
    match c.max_src_win_size {
        None => win == DEFAULT_SRC_WIN_SIZE,
        Some(s) => exists|p: int| is_next_pow2(s as int, p) && win == (if p > MIN_SRC_WIN_SIZE { p } else { MIN_SRC_WIN_SIZE as int }),
    }
}

/// The number of table slots asked for: half the source's power of two or the window,
/// whichever is smaller, per step, at most 2^30.
pub open spec fn src_table_slots(src_pow: int, win: int, l: int) -> int {
    let eff = if src_pow / 2 < win { src_pow / 2 } else { win };
    let slots = eff / l;
    if slots > 0x4000_0000 { 0x4000_0000 } else { slots }
}

/// The window (half of it kept) and table size of `m` are those configuration `c` settles on
/// for a source of `src_len` bytes and step `l`.
pub open spec fn src_sized(c: SrcMatcherConfig, m: SrcMatcher, src_len: int, l: int) -> bool {
    exists|win: int, src_pow: int| #[trigger] src_win_for(c, win) && m.half_win_size == win / 2
        && (src_len <= usize::MAX / 2 ==> is_next_pow2(src_len, src_pow))
        && (src_len > usize::MAX / 2 ==> src_pow == usize::MAX / 2 + 1)
        && #[trigger] table_bits_ok(src_table_slots(src_pow, win, l), m.table.size_bits() as int)
}

/// `m` is the matcher that `build` makes from configuration `c` for `src` and `trgt`, matching
/// from `p0`: its step and window settled by `c`, its forward hash over the 9 target bytes at
/// `p0` (when they are before the last 9), and a table of the asked-for size (64 bit hashes)
/// holding the first window of source positions, hashed at `p0`.
pub open spec fn src_built(c: SrcMatcherConfig, m: SrcMatcher, src: Seq<u8>, trgt: Seq<u8>, p0: int) -> bool {
    let l: int = if c.l_step >= 1 { c.l_step as int } else { 1 };
    let max_fwd: int = if trgt.len() >= 9 { trgt.len() - 9 } else { 0 };
    let fresh = SrcMatcher { next_hash_pos: 0, ..m };
    &&& m.wf()
    &&& m.l_step == l
    &&& m.src_len == src.len()
    &&& m.trgt_len == trgt.len()
    &&& m.max_end_pos == align_spec(if src.len() >= 9 { src.len() - 9 } else { 0 }, l)
    &&& src_sized(c, m, src.len() as int, l)
    &&& m.max_fwd_hash_pos == max_fwd
    &&& m.fwd_pos == (if p0 < max_fwd { p0 } else { max_fwd })
    &&& m.fwd_hash == (if p0 < max_fwd { large_checksum(trgt.subrange(p0, p0 + 9)) } else { 0 })
    &&& m.cur_window_end == 0
    &&& m.max_match_pos == p0
    &&& !m.table.hash_32_bit_spec()
    &&& forall|h: u64| #[trigger] m.table.slot_of(h) == slot_for(m.table.size_bits(), false, h)
    &&& m.table.slots() == (match window_at(fresh, p0) {
        None => empty_slots((1u64 << m.table.size_bits()) as nat),
        Some((s, e)) => fill_slots(m.table, empty_slots((1u64 << m.table.size_bits()) as nat), src, l, s, window_fill_end(s, e, l)),
    })
    &&& m.next_hash_pos == next_hash_after(fresh, p0)
}

/// A fresh matcher with an empty table, once the first window is hashed, is built as
/// `src_built` says.
proof fn lemma_src_built(c: SrcMatcherConfig, pre: SrcMatcher, m: SrcMatcher, src: Seq<u8>, trgt: Seq<u8>, p0: int, w: int, sp: int)
    requires
        pre.next_hash_pos == 0,
        pre.table.slots() == empty_slots((1u64 << pre.table.size_bits()) as nat),
        forall|h: u64| #[trigger] pre.table.slot_of(h) == slot_for(pre.table.size_bits(), false, h),
        !pre.table.hash_32_bit_spec(),
        src_win_for(c, w),
        pre.half_win_size == w / 2,
        src.len() <= usize::MAX / 2 ==> is_next_pow2(src.len() as int, sp),
        src.len() > usize::MAX / 2 ==> sp == usize::MAX / 2 + 1,
        table_bits_ok(src_table_slots(sp, w, pre.l_step as int), pre.table.size_bits() as int),
        pre.l_step == (if c.l_step >= 1 { c.l_step as int } else { 1 }),
        pre.src_len == src.len(),
        pre.trgt_len == trgt.len(),
        pre.max_end_pos == align_spec(if src.len() >= 9 { src.len() - 9 } else { 0 }, pre.l_step as int),
        pre.max_fwd_hash_pos == (if trgt.len() >= 9 { trgt.len() - 9 } else { 0 }),
        pre.fwd_pos == (if p0 < pre.max_fwd_hash_pos { p0 } else { pre.max_fwd_hash_pos as int }),
        pre.fwd_hash == (if p0 < pre.max_fwd_hash_pos { large_checksum(trgt.subrange(p0, p0 + 9)) } else { 0 }),
        pre.cur_window_end == 0,
        pre.max_match_pos == p0,
        m.wf(),
        m == (SrcMatcher { table: m.table, next_hash_pos: m.next_hash_pos, ..pre }),
        m.table.size_bits() == pre.table.size_bits(),
        m.table.hash_32_bit_spec() == pre.table.hash_32_bit_spec(),
        forall|h: u64| #[trigger] m.table.slot_of(h) == pre.table.slot_of(h),
        m.table.slots() == slots_after_adding(pre, p0, src),
        m.next_hash_pos == next_hash_after(pre, p0),
    ensures
        src_built(c, m, src, trgt, p0),
{
    let l = pre.l_step as int;
    let fresh = SrcMatcher { next_hash_pos: 0, ..m };
    assert(fresh == (SrcMatcher { table: m.table, ..pre }));
    assert(window_at(fresh, p0) == window_at(pre, p0));
    if let Some((s, e)) = window_at(pre, p0) {
        lemma_fill_same_slots(pre.table, m.table, pre.table.slots(), src, l, s, window_fill_end(s, e, l));
    }
    assert(forall|h: u64| #[trigger] m.table.slot_of(h) == slot_for(m.table.size_bits(), false, h));
    assert(src_win_for(c, w) && m.half_win_size == w / 2
        && (src.len() <= usize::MAX / 2 ==> is_next_pow2(src.len() as int, sp))
        && (src.len() > usize::MAX / 2 ==> sp == usize::MAX / 2 + 1)
        && table_bits_ok(src_table_slots(sp, w, l), m.table.size_bits() as int));
    assert(m.table.slots() == (match window_at(fresh, p0) {
        None => empty_slots((1u64 << m.table.size_bits()) as nat),
        Some((s, e)) => fill_slots(m.table, empty_slots((1u64 << m.table.size_bits()) as nat), src, l, s, window_fill_end(s, e, l)),
    }));
    let lc: int = if c.l_step >= 1 { c.l_step as int } else { 1 };
    assert(src_sized(c, m, src.len() as int, lc));
}

/// What the matcher is built with.
pub struct InnerConfig {
    pub l_step: usize,
    pub src_len: usize,
    pub trgt_len: usize,
    pub src_win_size: usize,
    pub max_end_pos: usize,
}

impl SrcMatcherConfig {
    /// Creates a new SrcMatcherConfig with the given parameters.
    /// l_step: How much to advance the Large Hash between storing a src hash.
    /// max_src_win_size: The maximum size of the source window.
    pub fn new(l_step: usize, max_src_win_size: Option<usize>) -> (r: Self)
        ensures
            r == (SrcMatcherConfig { l_step, max_src_win_size }),
    {
        SrcMatcherConfig { l_step, max_src_win_size }
    }

    /// Creates a new SrcMatcherConfig with the given compression level.
    /// level: The compression level to use. Must be between 0 and 9.
    /// The higher the level the more accurate the matches but slower.
    pub fn comp_level(level: usize) -> (r: Self)
        requires
            level <= 9,
        ensures
            r.l_step == ranger_map_spec(0, 10, 26, 2, level as int),
            r.max_src_win_size is None,
    {
        let l_step = Ranger::new(0..10, 26..=2).map(level);
        SrcMatcherConfig { l_step, max_src_win_size: None }
    }

    /// Settles the step (at least 1) and the window size (a power of two, at least the
    /// minimum; the default when unset) and computes the last hashable aligned position.
    pub fn make_inner_config(&mut self, src_len: usize, trgt_len: usize) -> (r: InnerConfig)
        requires
            old(self).max_src_win_size matches Some(s) ==> s <= usize::MAX / 4,
        ensures
            final(self).l_step == (if old(self).l_step >= 1 { old(self).l_step } else { 1 }),
            final(self).max_src_win_size matches Some(w) && w == r.src_win_size,
            old(self).max_src_win_size is None ==> r.src_win_size == DEFAULT_SRC_WIN_SIZE,
            old(self).max_src_win_size matches Some(s) ==> exists|p: int| is_next_pow2(s as int, p)
                && r.src_win_size == (if p > MIN_SRC_WIN_SIZE { p } else { MIN_SRC_WIN_SIZE as int }),
            r.l_step == final(self).l_step,
            r.src_len == src_len,
            r.trgt_len == trgt_len,
            r.max_end_pos == align_spec(if src_len >= 9 { src_len - 9 } else { 0 }, r.l_step as int),
            r.src_win_size <= usize::MAX / 2 + 1,
    {
        if self.l_step < 1 {
            self.l_step = 1;
        }
        let win = match self.max_src_win_size {
            Some(s) => {
                let p = next_power_of_two(s);
                if p > MIN_SRC_WIN_SIZE { p } else { MIN_SRC_WIN_SIZE }
            },
            None => DEFAULT_SRC_WIN_SIZE,
        };
        self.max_src_win_size = Some(win);
        let base = if src_len >= 9 { src_len - 9 } else { 0 };
        InnerConfig { l_step: self.l_step, src_len, trgt_len, src_win_size: win, max_end_pos: align(base, self.l_step) }
    }

    /// Builds the matcher for `src` against `trgt`, matching from `trgt_start_pos`, and stores
    /// the first window of source positions.
    #[verifier::rlimit(60)]
    #[verifier::spinoff_prover]
    pub fn build(&mut self, src: &[u8], trgt_start_pos: usize, trgt: &[u8]) -> (r: SrcMatcher)
        requires
            old(self).max_src_win_size matches Some(s) ==> s <= usize::MAX / 4,
            trgt_start_pos <= trgt.len(),
            trgt.len() > 0,
        ensures
            r.wf(),
            r.src_len == src.len(),
            r.trgt_len == trgt.len(),
            r.max_match_pos == trgt_start_pos,
            r.cur_window_end == 0,
            r.max_fwd_hash_pos == (if trgt.len() >= 9 { trgt.len() - 9 } else { 0 }),
            r.fwd_pos == (if trgt_start_pos < r.max_fwd_hash_pos { trgt_start_pos } else { r.max_fwd_hash_pos }),
            r.fwd_pos < r.max_fwd_hash_pos ==> r.fwd_hash == crate::encoder::hasher::large_checksum(trgt@.subrange(r.fwd_pos as int, r.fwd_pos + 9)),
            r.l_step >= 1,
            r.l_step == (if old(self).l_step >= 1 { old(self).l_step } else { 1 }),
            trgt_start_pos == 0 ==> r.next_hash_pos > 0,
            src_built(*old(self), r, src@, trgt@, trgt_start_pos as int),
            trgt_start_pos == 0 && src@.len() >= 18 + 2 * r.l_step
                ==> r.table.lookup(large_checksum(src@.subrange(0, 9))) == Some(0usize),
    {
        let InnerConfig { l_step, src_len, trgt_len, src_win_size, max_end_pos } = self.make_inner_config(src.len(), trgt.len());
        let max_fwd_hash_pos = if trgt.len() >= 9 { trgt.len() - 9 } else { 0 };
        let (fwd_hash, fwd_pos) = if trgt_start_pos < max_fwd_hash_pos {
            (calculate_large_checksum(&trgt[trgt_start_pos..trgt_start_pos + 9]), trgt_start_pos)
        } else {
            (0, max_fwd_hash_pos)
        };
        let src_pow = if src_len <= usize::MAX / 2 { next_power_of_two(src_len) } else { usize::MAX / 2 + 1 };
        let half_src_pow = src_pow / 2;
        let table_win_effective = if half_src_pow < src_win_size { half_src_pow } else { src_win_size };
        let slots = table_win_effective / l_step;
        let capped = if slots > 0x4000_0000 { 0x4000_0000 } else { slots };
        let table = BasicHashTable::new(capped, false);
        let mut matcher = SrcMatcher {
            table,
            src_len,
            trgt_len,
            max_end_pos,
            max_fwd_hash_pos,
            fwd_hash,
            fwd_pos,
            l_step,
            half_win_size: src_win_size / 2,
            cur_window_end: 0,
            next_hash_pos: 0,
            max_match_pos: trgt_start_pos,
        };
        proof {
            assert(src_win_size >= MIN_SRC_WIN_SIZE);
            assert(matcher.half_win_size >= MIN_SRC_WIN_SIZE / 2);
            if trgt_start_pos == 0 && src_len >= 18 + 2 * l_step {
                let x = src_len - 9;
                assert(x % (l_step as int) < l_step);
                let e = if 2 * matcher.half_win_size < max_end_pos { 2 * matcher.half_win_size } else { max_end_pos as int };
                assert(window_range_spec(0, src_len as int, trgt_len as int, matcher.half_win_size as int, max_end_pos as int,
                    0, l_step as int, 0) == Some((0int, e)));
                if l_step < 9 {
                    assert((e - 9) % (l_step as int) < l_step);
                }
                assert(window_start_stored(0, e, l_step as int));
                assert(0int / (l_step as int) == 0);
            }
        }
        let ghost pre = matcher;
        add_start_positions_to_matcher(&mut matcher, trgt_start_pos, src);
        proof {
            let n = (1u64 << pre.table.size_bits()) as nat;
            assert(pre.table.slots() =~= empty_slots(n));
            assert(src_win_for(*old(self), src_win_size as int));
            lemma_src_built(*old(self), pre, matcher, src@, trgt@, trgt_start_pos as int, src_win_size as int, src_pow as int);
        }
        matcher
    }
}

} // verus!
