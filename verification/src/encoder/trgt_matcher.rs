//! Finds earlier occurrences, in the target itself, of the bytes at the current
//! position (for Copy-from-output operations), through a table of 4 byte checksums.
use vstd::prelude::*;
use crate::encoder::hasher::{calculate_small_checksum, update_small_checksum_fwd, small_checksum, small_fwd};
use crate::encoder::hashmap::{BasicHashTable, ChainList, PrevPositionIterator, slot_for, table_bits_ok};
use crate::encoder::ranger::{ranger_map_spec, Ranger};

verus! {

/// `trgt[start..start + len]` equals `trgt[pos..pos + len]`, and the first range ends before
/// `pos`: a Copy from the output written so far can produce the bytes at `pos`.
pub open spec fn trgt_match_ok(trgt: Seq<u8>, start: int, pos: int, len: int) -> bool {
    &&& 0 <= start
    &&& start + len <= pos
    &&& pos + len <= trgt.len()
    &&& trgt.subrange(start, start + len) == trgt.subrange(pos, pos + len)
}

/// Number of equal bytes of `x` at `i` and of `y` at `j` (from 0 on), up to `max`.
pub open spec fn match_len(x: Seq<u8>, i: int, y: Seq<u8>, j: int, max: int) -> int
    decreases max,
{
    if max <= 0 || x[i] != y[j] {
        0
    } else {
        1 + match_len(x, i + 1, y, j + 1, max - 1)
    }
}

/// Number of equal bytes at `a` and `b` (from 0 on), up to `max`.
pub fn match_forward(data_a: &[u8], a: usize, data_b: &[u8], b: usize, max: usize) -> (r: usize)
    requires
        a + max <= data_a.len(),
        b + max <= data_b.len(),
    ensures
        r == match_len(data_a@, a as int, data_b@, b as int, max as int),
        r <= max,
        data_a@.subrange(a as int, a + r) == data_b@.subrange(b as int, b + r),
        r < max ==> data_a@[a + r] != data_b@[b + r],
{
    let mut i: usize = 0;
    while i < max && data_a[a + i] == data_b[b + i]
        invariant
            i <= max,
            a + max <= data_a.len(),
            b + max <= data_b.len(),
            data_a@.subrange(a as int, a + i) == data_b@.subrange(b as int, b + i),
            match_len(data_a@, a as int, data_b@, b as int, max as int)
                == i + match_len(data_a@, a + i, data_b@, b + i, max - i),
        decreases max - i,
    {
        proof {
            assert(data_a@.subrange(a as int, a + i + 1) =~= data_a@.subrange(a as int, a + i).push(data_a@[a + i]));
            assert(data_b@.subrange(b as int, b + i + 1) =~= data_b@.subrange(b as int, b + i).push(data_b@[b + i]));
        }
        i = i + 1;
    }
    i
}

/// Finds matches in the target for the current (forward) position.
pub struct TrgtMatcher {
    pub compress_early_exit: usize,
    pub chain_check: usize,
    pub fwd_hash: u32,
    pub fwd_pos: usize,
    pub max_fwd_hash_pos: usize,
    pub table: BasicHashTable,
    pub chain: ChainList,
}

impl TrgtMatcher {
    pub open spec fn wf(&self) -> bool {
        &&& self.table.wf()
        &&& self.chain.wf()
    }

    /// `new` is this matcher after storing `pos` for `hash`: the table's slot for `hash` holds
    /// (hash, pos), and what it held before moves to the chain's slot for `pos` (when the
    /// chain has slots); everything else is kept.
    pub open spec fn stored(&self, new: TrgtMatcher, hash: u64, pos: usize) -> bool {
        &&& new.table.hash_32_bit_spec() == self.table.hash_32_bit_spec()
        &&& forall|h: u64| new.table.slot_of(h) == self.table.slot_of(h)
        &&& forall|p: usize| new.chain.slot_of(p) == self.chain.slot_of(p)
        &&& new.table.slots() == self.table.slots().update(self.table.slot_of(hash), Some((hash, pos)))
        &&& new.chain.slots() == (match self.table.slots()[self.table.slot_of(hash)] {
            Some(prev) if self.chain.slots().len() > 0 => self.chain.slots().update(self.chain.slot_of(pos), Some(prev)),
            _ => self.chain.slots(),
        })
    }

    /// How many candidates a search checks: a quarter of `chain_check` (at least 1) when
    /// `min_match` exceeds 4, else `chain_check`.
    pub open spec fn chain_budget(&self, min_match: usize) -> int {
        if min_match > 4 {
            if self.chain_check / 4 > 1 { (self.chain_check / 4) as int } else { 1 }
        } else {
            self.chain_check as int
        }
    }

    /// The length of the match that candidate `start` gives for the bytes at `fwd_pos`: the
    /// 4 hashed bytes and the equal bytes after them, the copy ending before `fwd_pos` and
    /// the bytes before the target's end; 0 when the candidate does not start more than 4
    /// bytes before `fwd_pos` or its first 4 bytes differ.
    pub open spec fn candidate_len(&self, trgt: Seq<u8>, start: int) -> int {
        let pos = self.fwd_pos as int;
        if !(start + 4 < pos) || match_len(trgt, start, trgt, pos, 4) < 4 {
            0
        } else {
            let src_remain = pos - (start + 4);
            let trgt_remain = trgt.len() - (pos + 4);
            let max = if src_remain < trgt_remain { src_remain } else { trgt_remain };
            4 + match_len(trgt, start + 4, trgt, pos + 4, max)
        }
    }

    /// The match a search settles on, checking `pending` (if any) and then the positions the
    /// chain walk from `at` gives for the current hash, in that order. Each candidate with a
    /// match uses one of the `budget` checks; a longer match than `best` replaces it, and one
    /// of `compress_early_exit` bytes or more ends the search.
    pub open spec fn search(&self, trgt: Seq<u8>, pending: Option<usize>, at: usize, budget: int,
        best: Option<(usize, usize)>) -> Option<(usize, usize)>
        decreases (if pending is Some { 1int } else { 0int }) + at,
    {
        if budget <= 0 {
            best
        } else {
            let step: (Option<usize>, usize) = match pending {
                Some(p) => (Some(p), at),
                None => self.chain.walk(at, self.fwd_pos, self.fwd_hash as u64),
            };
            match step.0 {
                None => best,
                Some(start) => {
                    proof {
                        self.chain.lemma_walk_back(at, self.fwd_pos, self.fwd_hash as u64);
                    }
                    let len = self.candidate_len(trgt, start as int);
                    let best_len: int = match best {
                        Some((_, l)) => l as int,
                        None => 0,
                    };
                    if len == 0 {
                        self.search(trgt, None, step.1, budget, best)
                    } else if len > best_len {
                        if len >= self.compress_early_exit {
                            Some((start, len as usize))
                        } else {
                            self.search(trgt, None, step.1, budget - 1, Some((start, len as usize)))
                        }
                    } else {
                        self.search(trgt, None, step.1, budget - 1, best)
                    }
                },
            }
        }
    }

    /// What `find_best_trgt_match` returns: nothing when the table holds no position for
    /// the current hash or one after `fwd_pos`, else the search from that position.
    pub open spec fn best_trgt_match(&self, trgt: Seq<u8>, min_match: usize) -> Option<(usize, usize)> {
        match self.table.lookup(self.fwd_hash as u64) {
            None => None,
            Some(tp) => if tp > self.fwd_pos {
                None
            } else {
                self.search(trgt, Some(tp), tp, self.chain_budget(min_match), None)
            },
        }
    }

    /// Looks for the longest earlier occurrence of the bytes at `fwd_pos`, checking the
    /// table's position for the current hash and then the chain of earlier positions, at most
    /// `chain_check` of them (a quarter when `min_match` exceeds 4), stopping early at a match
    /// of `compress_early_exit` bytes. Returns (trgt_pos, length); the length includes the 4
    /// hashed bytes.
    pub fn find_best_trgt_match(&self, trgt: &[u8], min_match: usize) -> (r: Option<(usize, usize)>)
        requires
            self.wf(),
            self.fwd_pos + 4 <= trgt.len(),
        ensures
            r == self.best_trgt_match(trgt@, min_match),
            r matches Some((start, len)) ==> 4 <= len && trgt_match_ok(trgt@, start as int, self.fwd_pos as int, len as int),
    {
        let cur_hash = self.fwd_hash as u64;
        let table_pos = match self.table.get(cur_hash) {
            Some(p) => p,
            None => return None,
        };
        if table_pos > self.fwd_pos {
            return None;
        }
        let mut chain: usize = if min_match > 4 {
            let c = self.chain_check / 4;
            if c > 1 { c } else { 1 }
        } else {
            self.chain_check
        };
        let ghost target = self.search(trgt@, Some(table_pos), table_pos, chain as int, None);
        let mut best: Option<(usize, usize)> = None;
        let mut best_len: usize = 0;
        let mut iter = PrevPositionIterator::new(&self.chain, table_pos, self.fwd_pos, cur_hash);
        let mut next_start: Option<usize> = Some(table_pos);
        loop
            invariant_except_break
                self.search(trgt@, next_start, iter.at(), chain as int, best) == target,
            invariant
                self.wf(),
                self.fwd_pos + 4 <= trgt.len(),
                iter.wf(),
                iter.bound() == self.fwd_pos,
                iter.at() <= iter.bound(),
                iter.chain() == self.chain,
                iter.hash() == cur_hash || iter.chain().slots().len() == 0,
                cur_hash == self.fwd_hash as u64,
                next_start matches Some(p) ==> p == iter.at(),
                best matches Some((s, l)) ==> 4 <= l && l == best_len && trgt_match_ok(trgt@, s as int, self.fwd_pos as int, l as int),
                best is None ==> best_len == 0,
            ensures
                best == target,
                best matches Some((s, l)) ==> 4 <= l && trgt_match_ok(trgt@, s as int, self.fwd_pos as int, l as int),
            decreases (if next_start is Some { 1int } else { 0int }) + iter.at(), chain,
        {
            if chain == 0 {
                break;
            }
            let ghost at0 = iter.at();
            proof {
                if iter.chain().slots().len() == 0 {
                    assert(iter.chain().walk(at0, self.fwd_pos, iter.hash()) == self.chain.walk(at0, self.fwd_pos, cur_hash));
                }
            }
            let start_pos = match next_start {
                Some(p) => {
                    next_start = None;
                    p
                },
                None => match iter.next() {
                    Some(p) => p,
                    None => break,
                },
            };
            if !(start_pos + 4 < self.fwd_pos) {
                continue;
            }
            let initial = match_forward(trgt, start_pos, trgt, self.fwd_pos, 4);
            if initial < 4 {
                continue;
            }
            let match_end = start_pos + 4;
            let trgt_end = self.fwd_pos + 4;
            let src_remain = self.fwd_pos - match_end;
            let trgt_remain = trgt.len() - trgt_end;
            let max = if src_remain < trgt_remain { src_remain } else { trgt_remain };
            let post_match = match_forward(trgt, match_end, trgt, trgt_end, max);
            let total_post_match = post_match + 4;
            proof {
                let s = trgt@;
                assert(s.subrange(start_pos as int, start_pos + total_post_match) =~= s.subrange(start_pos as int, start_pos + 4)
                    + s.subrange(match_end as int, match_end + post_match));
                assert(s.subrange(self.fwd_pos as int, self.fwd_pos + total_post_match) =~= s.subrange(self.fwd_pos as int, self.fwd_pos + 4)
                    + s.subrange(trgt_end as int, trgt_end + post_match));
            }
            if total_post_match > best_len {
                best_len = total_post_match;
                best = Some((start_pos, total_post_match));
                if best_len >= self.compress_early_exit {
                    break;
                }
            }
            chain = chain - 1;
        }
        best
    }

    /// Records `pos` for `hash`; the position the table held for that slot moves to the chain.
    pub fn store(&mut self, hash: u64, pos: usize)
        requires
            old(self).wf(),
            hash < 0x1_0000_0000,
            pos < usize::MAX - 1,
        ensures
            final(self).wf(),
            final(self).fwd_pos == old(self).fwd_pos,
            final(self).fwd_hash == old(self).fwd_hash,
            final(self).max_fwd_hash_pos == old(self).max_fwd_hash_pos,
            final(self).compress_early_exit == old(self).compress_early_exit,
            final(self).chain_check == old(self).chain_check,
            old(self).stored(*final(self), hash, pos),
            final(self).table.size_bits() == old(self).table.size_bits(),
            final(self).chain.slots().len() == old(self).chain.slots().len(),
    {
        match self.table.insert(hash, pos) {
            Ok(None) => {},
            Ok(Some(prev)) => {
                self.chain.insert(hash, pos, prev);
            },
            Err((old_hash, prev_pos)) => {
                self.chain.insert(old_hash, pos, prev_pos);
            },
        }
    }
}


/// The smallest power of two that is at least `x`, but no more than `cap` (a power of two).
pub fn next_pow2_capped(x: usize, cap: usize) -> (r: usize)
    requires
        1 <= cap <= 0x4000_0000,
        cap & (cap - 1) as usize == 0,
    ensures
        1 <= r <= cap,
        r & (r - 1) as usize == 0,
        r >= x || r == cap,
        r == 1 || r / 2 < x,
{
    let mut p: usize = 1;
    let ghost mut k: u64 = 0;
    proof {
        assert((1u64 << 0u64) == 1) by (bit_vector);
    }
    while p < x && p < cap
        invariant
            1 <= p <= cap <= 0x4000_0000,
            k <= 30,
            p as u64 == (1u64 << k),
            cap & (cap - 1) as usize == 0,
            p == 1 || p / 2 < x,
        decreases cap - p,
    {
        proof {
            let pk = p as u64;
            let ck = cap as u64;
            assert(ck & (ck - 1) as u64 == 0);
            assert(2 * pk <= ck) by (bit_vector)
                requires pk == (1u64 << k), pk < ck, ck & (ck - 1) as u64 == 0, k <= 30, ck <= 0x4000_0000;
            assert((1u64 << (k + 1) as u64) == 2 * pk) by (bit_vector)
                requires pk == (1u64 << k), k <= 30;
            assert(k < 30) by (bit_vector)
                requires pk == (1u64 << k), 2 * pk <= 0x4000_0000, k <= 30;
        }
        p = p * 2;
        proof {
            k = (k + 1) as u64;
        }
    }
    proof {
        let pk = p as u64;
        assert(pk & (pk - 1) as u64 == 0) by (bit_vector)
            requires pk == (1u64 << k), k <= 30;
    }
    p
}

/// `r` is what `next_pow2_capped(x, cap)` gives: the smallest power of two at least `x`, or
/// `cap` when that is smaller.
pub open spec fn pow2_capped(x: int, cap: int, r: int) -> bool {
    &&& 1 <= r <= cap
    &&& (r as usize) & ((r - 1) as usize) == 0
    &&& (r >= x || r == cap)
    &&& (r == 1 || r / 2 < x)
}

/// The table and chain of `t` after storing `pos` for `hash`, from the slots `tv` and `cv`
/// (as `TrgtMatcher::stored` says).
pub open spec fn store_views(t: TrgtMatcher, tv: Seq<Option<(u64, usize)>>, cv: Seq<Option<(u64, usize)>>, hash: u64, pos: usize)
    -> (Seq<Option<(u64, usize)>>, Seq<Option<(u64, usize)>>)
{
    (tv.update(t.table.slot_of(hash), Some((hash, pos))), match tv[t.table.slot_of(hash)] {
        Some(prev) if cv.len() > 0 => cv.update(t.chain.slot_of(pos), Some(prev)),
        _ => cv,
    })
}

/// The table and chain after storing, for `from` up to `to` while 4 bytes follow, position
/// `from + 1` under the small checksum rolled one byte further from `h`.
pub open spec fn prefix_views(t: TrgtMatcher, tv: Seq<Option<(u64, usize)>>, cv: Seq<Option<(u64, usize)>>, trgt: Seq<u8>, h: u32, from: int, to: int)
    -> (Seq<Option<(u64, usize)>>, Seq<Option<(u64, usize)>>)
    decreases to - from,
{
    if from < to && from + 4 < trgt.len() {
        let h2 = small_fwd(h, trgt[from], trgt[from + 4]);
        let v = store_views(t, tv, cv, h2 as u64, (from + 1) as usize);
        prefix_views(t, v.0, v.1, trgt, h2, from + 1, to)
    } else {
        (tv, cv)
    }
}

/// Storing depends on the matcher only through where its table and chain put things.
pub proof fn lemma_prefix_same(t1: TrgtMatcher, t2: TrgtMatcher, tv: Seq<Option<(u64, usize)>>, cv: Seq<Option<(u64, usize)>>,
    trgt: Seq<u8>, h: u32, from: int, to: int)
    requires
        forall|x: u64| #[trigger] t1.table.slot_of(x) == t2.table.slot_of(x),
        forall|q: usize| #[trigger] t1.chain.slot_of(q) == t2.chain.slot_of(q),
    ensures
        prefix_views(t1, tv, cv, trgt, h, from, to) == prefix_views(t2, tv, cv, trgt, h, from, to),
    decreases to - from,
{
    if from < to && from + 4 < trgt.len() {
        let h2 = small_fwd(h, trgt[from], trgt[from + 4]);
        let v = store_views(t1, tv, cv, h2 as u64, (from + 1) as usize);
        assert(v == store_views(t2, tv, cv, h2 as u64, (from + 1) as usize));
        lemma_prefix_same(t1, t2, v.0, v.1, trgt, h2, from + 1, to);
    }
}

/// The chain capacity configuration `c` settles on for `eff` bytes to match: the one given,
/// else half the power of two at or above `eff` (at most 2^19).
pub open spec fn chain_cap_for(c: TrgtMatcherConfig, eff: int, cap: int) -> bool {
    match c.prev_table_capacity {
        Some(x) => cap == x,
        None => exists|k: int| #[trigger] pow2_capped(eff, 524288, k) && cap == k / 2,
    }
}

/// The table size (in bits) the target matcher takes for `eff` bytes to match: half the power
/// of two at or above one and a half times `eff` (at most 2^24).
pub open spec fn trgt_table_bits(eff: int, bits: int) -> bool {
    exists|k: int| #[trigger] pow2_capped(grown_len(eff), 16777216, k) && table_bits_ok(k / 2, bits)
}

/// One and a half times `eff`, at most 2^30.
pub open spec fn grown_len(eff: int) -> int {
    if eff > 0x4000_0000 { 0x4000_0000 } else { eff + eff / 2 }
}

/// `m` is the matcher that `build` makes from configuration `c` for `trgt`, matching from
/// `p0`: tables of the settled sizes (the table reading 32 bit hashes), with the positions
/// before `p0` (at most the chain capacity of them) stored in order.
pub open spec fn trgt_built(c: TrgtMatcherConfig, m: TrgtMatcher, trgt: Seq<u8>, p0: int) -> bool {
    let cap = m.chain.slots().len() as int;
    let bits = m.table.size_bits();
    let tv0 = Seq::new((1u64 << bits) as nat, |i: int| None::<(u64, usize)>);
    let cv0 = Seq::new(cap as nat, |i: int| None::<(u64, usize)>);
    let start = if p0 > cap { p0 - cap } else { 0 };
    let h0 = small_checksum(trgt.subrange(start, trgt.len() as int));
    let v0 = store_views(m, tv0, cv0, h0 as u64, start as usize);
    &&& m.wf()
    &&& m.compress_early_exit == c.compress_early_exit
    &&& m.chain_check == c.chain_check
    &&& m.fwd_pos == p0
    &&& m.fwd_hash == 0
    &&& m.max_fwd_hash_pos == (if trgt.len() >= 4 { trgt.len() - 4 } else { 0 })
    &&& chain_cap_for(c, trgt.len() - p0, cap)
    &&& forall|p: usize| #[trigger] m.chain.slot_of(p) == (p & (if cap > 0 { (cap - 1) as usize } else { 0usize })) as int
    &&& m.table.hash_32_bit_spec()
    &&& trgt_table_bits(trgt.len() - p0, bits as int)
    &&& forall|h: u64| #[trigger] m.table.slot_of(h) == slot_for(bits, true, h)
    &&& (m.table.slots(), m.chain.slots()) == (if p0 > 0 { prefix_views(m, v0.0, v0.1, trgt, h0, start, p0) } else { (tv0, cv0) })
}

/// Default number of slots of the table of positions.
pub const DEFAULT_TRGT_WIN_SIZE: usize = 8388608;
/// Default number of slots of the chain of earlier positions.
pub const DEFAULT_PREV_SIZE: usize = 262144;

/// Configuration for the TrgtMatcher.
#[derive(Debug, Clone, Copy)]
pub struct TrgtMatcherConfig {
    /// If the small match (in trgt) is >= than this we stop searching the chain for better matches and use this one.
    pub compress_early_exit: usize,
    /// Max number of entries to check in the chain during matching.
    /// Larger value means more accurate matches but slower.
    /// `compress_early_exit` stops checking the chain,
    /// this value is the fallback in case the chain is long, and has no good matches.
    pub chain_check: usize,
    /// How many historical hashes to store if we find multiple start points for a given hash.
    /// This memory is shared across all hashes. Leave blank for dynamic calculation.
    pub prev_table_capacity: Option<usize>,
}

impl Default for TrgtMatcherConfig {
    fn default() -> (r: Self)
        ensures
            r.compress_early_exit == ranger_map_spec(0, 10, 6, 70, 3),
            r.chain_check == ranger_map_spec(0, 10, 1, 33, 3),
            r.prev_table_capacity is None,
    {
        Self::comp_level(3)
    }
}

/// A chain capacity the chain list accepts: 0 or a power of two (at most 2^30).
pub open spec fn capacity_ok(c: usize) -> bool {
    c == 0 || (c <= 0x4000_0000 && c & (c - 1) as usize == 0)
}

impl TrgtMatcherConfig {
    /// Creates a new TrgtMatcherConfig with the given compression level.
    /// level: The compression level to use. Must be between 0 and 9.
    /// The higher the level the more accurate the matches but slower.
    pub fn comp_level(level: usize) -> (r: Self)
        requires
            level <= 9,
        ensures
            r.compress_early_exit == ranger_map_spec(0, 10, 6, 70, level as int),
            r.chain_check == ranger_map_spec(0, 10, 1, 33, level as int),
            r.prev_table_capacity is None,
    {
        let compress_early_exit = Ranger::new(0..10, 6..=70).map(level);
        let chain_check = Ranger::new(0..10, 1..=33).map(level);
        TrgtMatcherConfig { compress_early_exit, chain_check, prev_table_capacity: None }
    }

    pub fn with_table_capacity(self, table_capacity: usize) -> (r: Self)
        ensures
            r == (TrgtMatcherConfig { prev_table_capacity: Some(table_capacity), ..self }),
    {
        TrgtMatcherConfig { prev_table_capacity: Some(table_capacity), ..self }
    }

    /// Builds a matcher for the target, starting at `trgt_start_pos`; the (at most capacity)
    /// positions before it are stored first. Sets the chain capacity if it was unset.
    #[verifier::rlimit(60)]
    #[verifier::spinoff_prover]
    pub fn build(&mut self, trgt: &[u8], trgt_start_pos: usize) -> (r: TrgtMatcher)
        requires
            trgt_start_pos <= trgt@.len(),
            trgt@.len() < usize::MAX - 8,
            old(self).prev_table_capacity matches Some(c) ==> capacity_ok(c),
        ensures
            r.wf(),
            r.fwd_pos == trgt_start_pos,
            r.fwd_hash == 0,
            r.max_fwd_hash_pos == (if trgt@.len() >= 4 { trgt@.len() - 4 } else { 0 }),
            r.compress_early_exit == old(self).compress_early_exit,
            r.chain_check == old(self).chain_check,
            final(self).compress_early_exit == old(self).compress_early_exit,
            final(self).chain_check == old(self).chain_check,
            final(self).prev_table_capacity matches Some(c) && capacity_ok(c),
            old(self).prev_table_capacity is Some ==> final(self).prev_table_capacity == old(self).prev_table_capacity,
            trgt_built(*old(self), r, trgt@, trgt_start_pos as int),
    {
        let effective_len = trgt.len() - trgt_start_pos;
        let ghost cee = self.compress_early_exit;
        let ghost cc = self.chain_check;
        let ghost mut ck_g: int = 0;
        let capacity = match self.prev_table_capacity {
            Some(c) => c,
            None => {
                proof {
                    assert((524288usize & (524288 - 1) as usize) == 0) by (bit_vector);
                }
                let ck = next_pow2_capped(effective_len, 524288);
                proof {
                    ck_g = ck as int;
                }
                let c = ck / 2;
                proof {
                    assert(c == 0 || (c & (c - 1) as usize) == 0) by (bit_vector)
                        requires ck & (ck - 1) as usize == 0, 1 <= ck <= 524288, c == ck / 2;
                }
                c
            },
        };
        self.prev_table_capacity = Some(capacity);
        let grown = if effective_len > 0x4000_0000 { 0x4000_0000 } else { effective_len + effective_len / 2 };
        proof {
            assert((16777216usize & (16777216 - 1) as usize) == 0) by (bit_vector);
        }
        let tk = next_pow2_capped(grown, 16777216);
        let table_slots = tk / 2;
        let table = BasicHashTable::new(table_slots, true);
        let chain = ChainList::new(capacity);
        let max_fwd_hash_pos = if trgt.len() >= 4 { trgt.len() - 4 } else { 0 };
        let mut matcher = TrgtMatcher {
            compress_early_exit: self.compress_early_exit,
            chain_check: self.chain_check,
            fwd_hash: 0,
            fwd_pos: trgt_start_pos,
            table,
            chain,
            max_fwd_hash_pos,
        };
        let ghost t0 = matcher;
        proof {
            assert(t0.table.slots() =~= Seq::new((1u64 << t0.table.size_bits()) as nat, |i: int| None::<(u64, usize)>));
            assert(t0.chain.slots() =~= Seq::new(t0.chain.slots().len() as nat, |i: int| None::<(u64, usize)>));
        }
        if trgt_start_pos > 0 {
            let start = if trgt_start_pos > capacity { trgt_start_pos - capacity } else { 0 };
            let end = trgt_start_pos;
            let mut hash = calculate_small_checksum(&trgt[start..trgt.len()]);
            let ghost h0 = hash;
            matcher.store(hash as u64, start);
            let ghost v0 = store_views(t0, t0.table.slots(), t0.chain.slots(), h0 as u64, start);
            let mut old_pos = start;
            while old_pos < end && old_pos + 4 < trgt.len()
                invariant
                    forall|h: u64| #[trigger] matcher.table.slot_of(h) == t0.table.slot_of(h),
                    forall|q: usize| #[trigger] matcher.chain.slot_of(q) == t0.chain.slot_of(q),
                    matcher.table.size_bits() == t0.table.size_bits(),
                    matcher.table.hash_32_bit_spec() == t0.table.hash_32_bit_spec(),
                    matcher.chain.slots().len() == t0.chain.slots().len(),
                    prefix_views(t0, v0.0, v0.1, trgt@, h0, start as int, end as int)
                        == prefix_views(t0, matcher.table.slots(), matcher.chain.slots(), trgt@, hash, old_pos as int, end as int),
                    matcher.wf(),
                    matcher.fwd_pos == trgt_start_pos,
                    matcher.fwd_hash == 0,
                    matcher.max_fwd_hash_pos == max_fwd_hash_pos,
                    matcher.compress_early_exit == cee,
                    matcher.chain_check == cc,
                    end <= trgt@.len(),
                    trgt@.len() < usize::MAX - 8,
                decreases end - old_pos,
            {
                let ghost pre = matcher;
                hash = update_small_checksum_fwd(hash, trgt[old_pos], trgt[old_pos + 4]);
                matcher.store(hash as u64, old_pos + 1);
                proof {
                    assert(store_views(pre, pre.table.slots(), pre.chain.slots(), hash as u64, (old_pos + 1) as usize)
                        == store_views(t0, pre.table.slots(), pre.chain.slots(), hash as u64, (old_pos + 1) as usize));
                    assert((matcher.table.slots(), matcher.chain.slots())
                        == store_views(t0, pre.table.slots(), pre.chain.slots(), hash as u64, (old_pos + 1) as usize));
                }
                old_pos = old_pos + 1;
            }
            proof {
                lemma_prefix_same(t0, matcher, v0.0, v0.1, trgt@, h0, start as int, end as int);
                assert(store_views(t0, t0.table.slots(), t0.chain.slots(), h0 as u64, start)
                    == store_views(matcher, t0.table.slots(), t0.chain.slots(), h0 as u64, start));
            }
        }
        proof {
            let cap = matcher.chain.slots().len() as int;
            if old(self).prev_table_capacity is None {
                assert(pow2_capped(effective_len as int, 524288, ck_g));
            }
            assert(chain_cap_for(*old(self), trgt@.len() - trgt_start_pos, cap));
            assert(pow2_capped(grown as int, 16777216, tk as int));
            assert(matcher.table.size_bits() == t0.table.size_bits());
            assert(table_bits_ok(tk as int / 2, matcher.table.size_bits() as int));
            let eff: int = trgt@.len() - trgt_start_pos;
            assert(grown as int == grown_len(eff));
            assert(trgt_table_bits(trgt@.len() - trgt_start_pos, matcher.table.size_bits() as int));
        }
        matcher
    }
}

} // verus!
