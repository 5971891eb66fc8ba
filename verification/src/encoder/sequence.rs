//! Finds repeated patterns in a buffer: a pattern followed by copies of itself, and
//! possibly a partial copy.
use vstd::prelude::*;

verus! {

/// A pattern of `pat_len` bytes at `start`, repeated to cover `seq_len` bytes.
#[derive(Debug, PartialEq)]
pub struct Sequence {
    pub start: usize,
    pub pat_len: usize,
    pub seq_len: usize,
}

/// The fewest copies of a pattern that cover its length plus `min_seq_len`.
pub open spec fn min_cycles_spec(pat_len: int, min_seq_len: int) -> int {
    (pat_len + min_seq_len) / pat_len
}

/// What of `min_seq_len` is left past whole copies of a pattern.
pub open spec fn rem_len_spec(pat_len: int, min_seq_len: int) -> int {
    (pat_len + min_seq_len) % pat_len
}

/// The most whole copies of a pattern that fit in `remaining` bytes, but none where there is
/// room for one copy only and not for the rest of a sequence after it.
pub open spec fn max_cycles_spec(remaining: int, pat_len: int, min_seq_len: int) -> int {
    let cycles = remaining / pat_len;
    if cycles == 1 && pat_len + rem_len_spec(pat_len, min_seq_len) >= remaining {
        cycles - 1
    } else {
        cycles
    }
}

/// The bytes `len` long at `a` are those at `b`.
pub open spec fn same_bytes(s: Seq<u8>, a: int, b: int, len: int) -> bool {
    s.subrange(a, a + len) == s.subrange(b, b + len)
}

/// The number of chunks of `pat_len` bytes, counting from chunk `c` among the first `n`
/// after `pat_start`, that each repeat the first one, until one does not.
pub open spec fn run_from(s: Seq<u8>, pat_start: int, pat_len: int, n: int, c: int) -> int
    decreases n - c,
{
    if c >= n || c < 0 || !same_bytes(s, pat_start + c * pat_len, pat_start, pat_len) {
        0
    } else {
        1 + run_from(s, pat_start, pat_len, n, c + 1)
    }
}

/// The number of leading copies of the pattern at `pat_start` among the chunks that lie
/// between it and `pat_len * cycles`, if at least two; None where there are fewer.
pub open spec fn most_cycles_spec(s: Seq<u8>, pat_start: int, pat_len: int, cycles: int) -> Option<usize> {
    let cycle_end = pat_len * cycles;
    if pat_start > cycle_end {
        None
    } else {
        let k = run_from(s, pat_start, pat_len, (cycle_end - pat_start) / pat_len, 0);
        if k >= 2 {
            Some(k as usize)
        } else {
            None
        }
    }
}

/// The longest prefix of `pattern`, at most `r` bytes and at least one, that the bytes at
/// `rem_start` repeat; 0 if none.
pub open spec fn best_rem(s: Seq<u8>, pattern: Seq<u8>, rem_start: int, r: int) -> int
    decreases r,
{
    if r <= 0 {
        0
    } else if s.subrange(rem_start, rem_start + r) == pattern.subrange(0, r) {
        r
    } else {
        best_rem(s, pattern, rem_start, r - 1)
    }
}

/// The sequence of the pattern of `pat_len` bytes at `start`: at least enough copies to
/// cover the pattern and `min_seq_len` more bytes (the last one possibly partial), then as
/// much of a partial copy as follows.
pub open spec fn sequence_at_spec(s: Seq<u8>, start: int, pat_len: int, min_seq_len: int) -> Option<Sequence> {
    let max_cycles = max_cycles_spec(s.len() - start, pat_len, min_seq_len);
    let min_cycles = min_cycles_spec(pat_len, min_seq_len);
    match most_cycles_spec(s, start, pat_len, max_cycles) {
        None => None,
        Some(found) => {
            let pattern = s.subrange(start, start + pat_len);
            let rem_start = start + pat_len * found;
            let try_rem = min_cycles == found && min_seq_len > 0;
            if min_cycles > found {
                None
            } else if try_rem && s.subrange(rem_start, rem_start + min_seq_len) != pattern.subrange(0, min_seq_len) {
                None
            } else {
                let rem_len = if found < max_cycles && !try_rem {
                    best_rem(s, pattern, rem_start, pat_len - 1)
                } else if try_rem {
                    min_seq_len
                } else {
                    0
                };
                Some(Sequence { start: start as usize, pat_len: pat_len as usize, seq_len: (found * pat_len + rem_len) as usize })
            }
        },
    }
}

/// The fewest copies of a pattern of `test_pat_len` bytes that cover it plus `min_seq_len`.
pub fn calculate_min_cycles(test_pat_len: usize, min_seq_len: usize) -> (r: usize)
    requires
        test_pat_len > 0,
        test_pat_len + min_seq_len <= usize::MAX,
    ensures
        r == min_cycles_spec(test_pat_len as int, min_seq_len as int),
{
    (test_pat_len + min_seq_len) / test_pat_len
}

/// The most copies of a pattern of `test_pat_len` bytes to look for in `remaining_bytes`.
pub fn calculate_max_cycles(remaining_bytes: usize, test_pat_len: usize, min_seq_len: usize) -> (r: usize)
    requires
        test_pat_len > 0,
        test_pat_len + min_seq_len <= usize::MAX,
    ensures
        r == max_cycles_spec(remaining_bytes as int, test_pat_len as int, min_seq_len as int),
{
    let cycles = remaining_bytes / test_pat_len;
    let rem_len = calculate_rem_len(test_pat_len, min_seq_len);
    proof {
        assert(rem_len <= min_seq_len) by (nonlinear_arith)
            requires
                rem_len == (test_pat_len + min_seq_len) % (test_pat_len as int),
                test_pat_len > 0,
                min_seq_len >= 0,
        {
            assert((test_pat_len + min_seq_len) % (test_pat_len as int) == (min_seq_len as int) % (test_pat_len as int));
        }
    }
    if cycles == 1 && test_pat_len + rem_len >= remaining_bytes {
        cycles - 1
    } else {
        cycles
    }
}

/// What of `min_seq_len` is left past whole copies of a pattern of `test_pat_len` bytes.
pub fn calculate_rem_len(test_pat_len: usize, min_seq_len: usize) -> (r: usize)
    requires
        test_pat_len > 0,
        test_pat_len + min_seq_len <= usize::MAX,
    ensures
        r == rem_len_spec(test_pat_len as int, min_seq_len as int),
{
    (test_pat_len + min_seq_len) % test_pat_len
}

/// Whether the `len` bytes of `bytes` at `at` are the first `len` bytes of `pattern`.
fn bytes_match(bytes: &[u8], at: usize, pattern: &[u8], len: usize) -> (r: bool)
    requires
        at + len <= bytes@.len(),
        len <= pattern@.len(),
    ensures
        r == (bytes@.subrange(at as int, at + len) == pattern@.subrange(0, len as int)),
{
    let blen = bytes.len();
    let mut k: usize = 0;
    while k < len
        invariant
            blen == bytes@.len(),
            k <= len,
            at + len <= bytes@.len(),
            len <= pattern@.len(),
            bytes@.subrange(at as int, at + k) == pattern@.subrange(0, k as int),
        decreases len - k,
    {
        if bytes[at + k] != pattern[k] {
            proof {
                assert(bytes@.subrange(at as int, at + len)[k as int] != pattern@.subrange(0, len as int)[k as int]);
            }
            return false;
        }
        proof {
            assert(bytes@.subrange(at as int, at + k + 1) =~= bytes@.subrange(at as int, at + k).push(bytes@[at + k]));
            assert(pattern@.subrange(0, k + 1) =~= pattern@.subrange(0, k as int).push(pattern@[k as int]));
        }
        k = k + 1;
    }
    true
}

proof fn lemma_run_from_bound(s: Seq<u8>, pat_start: int, pat_len: int, n: int, c: int)
    requires
        0 <= c <= n,
    ensures
        0 <= run_from(s, pat_start, pat_len, n, c) <= n - c,
    decreases n - c,
{
    if c < n {
        lemma_run_from_bound(s, pat_start, pat_len, n, c + 1);
    }
}

/// The number of leading copies of the pattern of `pat_len` bytes at `pat_start`, counted
/// over the whole chunks between it and `pat_len * cycles`, if at least two.
fn find_most_cycles(bytes: &[u8], pat_start: usize, pat_len: usize, cycles: usize) -> (r: Option<usize>)
    requires
        pat_len > 1,
        pat_start + pat_len <= bytes@.len(),
        pat_len * cycles <= bytes@.len() - pat_start,
    ensures
        r == most_cycles_spec(bytes@, pat_start as int, pat_len as int, cycles as int),
{
    let ghost s = bytes@;
    let blen = bytes.len();
    let end = pat_start + pat_len;
    let slice = vstd::slice::slice_subrange(bytes, pat_start, end);
    proof {
        assert(pat_len * cycles >= 0) by (nonlinear_arith)
            requires
                pat_len >= 0,
                cycles >= 0,
        ;
    }
    let cycle_end = pat_len * cycles;
    if pat_start > cycle_end {
        return None;
    }
    let n = (cycle_end - pat_start) / pat_len;
    proof {
        assert(n * pat_len <= cycle_end - pat_start) by (nonlinear_arith)
            requires
                n == (cycle_end - pat_start) / (pat_len as int),
                pat_len > 0,
                cycle_end >= pat_start,
        ;
    }
    let mut matched: usize = 0;
    let mut c: usize = n;
    while c > 0
        invariant
            s == bytes@,
            slice@ == s.subrange(pat_start as int, pat_start + pat_len),
            pat_len > 1,
            n * pat_len <= cycle_end - pat_start,
            cycle_end <= s.len() - pat_start,
            c <= n,
            matched == (if run_from(s, pat_start as int, pat_len as int, n as int, c as int) > 0 {
                c + run_from(s, pat_start as int, pat_len as int, n as int, c as int) - 1
            } else {
                0
            }),
        decreases c,
    {
        c = c - 1;
        proof {
            lemma_run_from_bound(s, pat_start as int, pat_len as int, n as int, c + 1);
            assert(c * pat_len + pat_len <= n * pat_len) by (nonlinear_arith)
                requires
                    c < n,
                    pat_len > 0,
            ;
        }
        let chunk_start = pat_start + c * pat_len;
        let eq = bytes_match(bytes, chunk_start, slice, pat_len);
        proof {
            assert(slice@.subrange(0, pat_len as int) =~= slice@);
            assert(eq == same_bytes(s, pat_start + c * pat_len, pat_start as int, pat_len as int));
        }
        if eq && matched == 0 {
            matched = c;
        } else if !eq && matched != 0 {
            matched = 0;
        }
    }
    proof {
        lemma_run_from_bound(s, pat_start as int, pat_len as int, n as int, 0);
    }
    if matched != 0 {
        Some(matched + 1)
    } else {
        None
    }
}

/// Whether the `rem_len` bytes at `rem_start` are the first `rem_len` bytes of `pattern`.
fn test_remainder(bytes: &[u8], pattern: &[u8], rem_start: usize, rem_len: usize) -> (r: bool)
    requires
        rem_len < pattern@.len(),
        rem_start + rem_len <= bytes@.len(),
    ensures
        r == (bytes@.subrange(rem_start as int, rem_start + rem_len) == pattern@.subrange(0, rem_len as int)),
{
    bytes_match(bytes, rem_start, pattern, rem_len)
}

/// The sequence of the pattern of `test_pat_len` bytes at `start`, if there is one (see
/// `sequence_at_spec`).
pub fn find_sequence_at_position(bytes: &[u8], start: usize, test_pat_len: usize, min_seq_len: usize) -> (r: Option<Sequence>)
    requires
        test_pat_len > 1,
        start + test_pat_len + min_seq_len <= bytes@.len(),
        min_seq_len >= test_pat_len ==> most_cycles_spec(
            bytes@,
            start as int,
            test_pat_len as int,
            max_cycles_spec(bytes@.len() - start, test_pat_len as int, min_seq_len as int),
        ) != Some(min_cycles_spec(test_pat_len as int, min_seq_len as int) as usize),
    ensures
        r == sequence_at_spec(bytes@, start as int, test_pat_len as int, min_seq_len as int),
        r matches Some(q) ==> q.seq_len <= bytes@.len() - start,
{
    let ghost s = bytes@;
    let pl = test_pat_len;
    let blen = bytes.len();
    let max_cycles = calculate_max_cycles(blen - start, pl, min_seq_len);
    let min_cycles = calculate_min_cycles(pl, min_seq_len);
    proof {
        assert(max_cycles * pl <= blen - start) by (nonlinear_arith)
            requires
                max_cycles <= (blen - start) / (pl as int),
                pl > 0,
                blen - start >= 0,
        ;
    }
    let found_cycles = match find_most_cycles(bytes, start, pl, max_cycles) {
        Some(f) => f,
        None => {
            return None;
        },
    };
    let ghost ce = pl * max_cycles;
    let ghost n = (ce - start) / (pl as int);
    proof {
        lemma_run_from_bound(s, start as int, pl as int, n, 0);
        assert(n * pl <= ce - start) by (nonlinear_arith)
            requires
                n == (ce - start) / (pl as int),
                pl > 0,
                ce >= start,
        ;
        assert(found_cycles * pl <= n * pl) by (nonlinear_arith)
            requires
                found_cycles <= n,
                pl > 0,
        ;
        assert(pl * found_cycles == found_cycles * pl) by (nonlinear_arith);
        assert(pl * max_cycles == max_cycles * pl) by (nonlinear_arith);
    }
    if min_cycles > found_cycles {
        return None;
    }
    let pattern = vstd::slice::slice_subrange(bytes, start, start + pl);
    let rem_start = start + pl * found_cycles;
    let try_rem = min_cycles == found_cycles && min_seq_len > 0;
    if try_rem {
        proof {
            assert(min_seq_len < pl);
            assert(min_cycles == 1) by (nonlinear_arith)
                requires
                    min_cycles == (pl + min_seq_len) / (pl as int),
                    0 <= min_seq_len < pl,
            ;
        }
        if !test_remainder(bytes, pattern, rem_start, min_seq_len) {
            return None;
        }
    }
    let rem_len = if found_cycles < max_cycles && !try_rem {
        proof {
            if start >= pl {
                assert(rem_start + pl - 1 <= blen);
            } else {
                assert(pl * (found_cycles + 1) <= pl * max_cycles) by (nonlinear_arith)
                    requires
                        found_cycles + 1 <= max_cycles,
                        pl > 0,
                ;
                assert(pl * (found_cycles + 1) == pl * found_cycles + pl) by (nonlinear_arith);
                assert(rem_start + pl - 1 <= blen);
            }
        }
        let mut rem_len = pl - 1;
        while rem_len > 0
            invariant
                s == bytes@,
                pattern@ == s.subrange(start as int, start + pl),
                start + pl <= s.len(),
                rem_len <= pl - 1,
                rem_start + pl - 1 <= s.len(),
                best_rem(s, pattern@, rem_start as int, pl - 1) == best_rem(s, pattern@, rem_start as int, rem_len as int),
            ensures
                best_rem(s, pattern@, rem_start as int, pl - 1) == rem_len,
            decreases rem_len,
        {
            if test_remainder(bytes, pattern, rem_start, rem_len) {
                break;
            }
            rem_len = rem_len - 1;
        }
        rem_len
    } else if try_rem {
        min_seq_len
    } else {
        0
    };
    let seq_len = found_cycles * pl + rem_len;
    Some(Sequence { start, pat_len: pl, seq_len })
}

/// The sequence at `start` with the longest pattern, of at most `pat_len` bytes and at least
/// `min_pat_len`, if there is one.
pub open spec fn best_at(s: Seq<u8>, start: int, pat_len: int, min_pat_len: int, min_seq_len: int) -> Option<Sequence>
    decreases pat_len,
{
    if pat_len < min_pat_len || pat_len <= 1 {
        None
    } else {
        match sequence_at_spec(s, start, pat_len, min_seq_len) {
            Some(q) => Some(q),
            None => best_at(s, start, pat_len - 1, min_pat_len, min_seq_len),
        }
    }
}

/// The sequences found scanning from `start`: at each position the one with the longest
/// pattern (at most half of what is left past `min_seq_len`), the scan then resuming one
/// byte past its end; or, where there is none, at the next position; until fewer than
/// `min_pat_len + min_seq_len` bytes are left.
pub open spec fn sequences_from(s: Seq<u8>, start: int, min_pat_len: int, min_seq_len: int) -> Seq<Sequence>
    decreases s.len() - start,
{
    if start < 0 || start >= s.len() || start >= s.len() - (min_pat_len + min_seq_len) {
        Seq::empty()
    } else {
        match best_at(s, start, (s.len() - start - min_seq_len) / 2, min_pat_len, min_seq_len) {
            Some(q) => seq![q] + if start + q.seq_len + 1 <= s.len() {
                sequences_from(s, start + q.seq_len + 1, min_pat_len, min_seq_len)
            } else {
                Seq::empty()
            },
            None => sequences_from(s, start + 1, min_pat_len, min_seq_len),
        }
    }
}

/// Every sequence of `bytes` with a pattern of at least `min_pat_len` bytes repeated over at
/// least `min_seq_len` more (see `sequences_from`).
pub fn find_all_sequences(bytes: &[u8], min_pat_len: usize, min_seq_len: usize) -> (r: Vec<Sequence>)
    requires
        min_pat_len > 1,
        min_seq_len < min_pat_len,
        min_pat_len + min_seq_len <= bytes@.len() < usize::MAX,
    ensures
        r@ == sequences_from(bytes@, 0, min_pat_len as int, min_seq_len as int),
{
    let ghost s = bytes@;
    let ghost mpl = min_pat_len as int;
    let ghost msl = min_seq_len as int;
    let blen = bytes.len();
    let mut seqs: Vec<Sequence> = Vec::new();
    let mut start: usize = 0;
    let min_len = min_pat_len + min_seq_len;
    let max_end = blen - min_len;
    proof {
        assert(seqs@ + sequences_from(s, 0, mpl, msl) =~= sequences_from(s, 0, mpl, msl));
    }
    while start < max_end
        invariant
            s == bytes@,
            blen == s.len() < usize::MAX,
            mpl == min_pat_len,
            msl == min_seq_len,
            min_pat_len > 1,
            min_seq_len < min_pat_len,
            max_end == s.len() - (mpl + msl),
            start <= s.len() + 1,
            seqs@ + sequences_from(s, start as int, mpl, msl) == sequences_from(s, 0, mpl, msl),
        decreases s.len() + 1 - start,
    {
        let top = (blen - start - min_seq_len) / 2;
        let mut test_pat_len = top;
        let mut hit: Option<Sequence> = None;
        while test_pat_len >= min_pat_len
            invariant_except_break
                hit is None,
            invariant
                s == bytes@,
                blen == s.len(),
                min_pat_len > 1,
                min_seq_len < min_pat_len,
                start < max_end,
                max_end == s.len() - (min_pat_len + min_seq_len),
                top == (s.len() - start - min_seq_len) / 2,
                test_pat_len <= top,
                best_at(s, start as int, top as int, min_pat_len as int, min_seq_len as int) == best_at(
                    s,
                    start as int,
                    test_pat_len as int,
                    min_pat_len as int,
                    min_seq_len as int,
                ),
            ensures
                hit matches Some(q) ==> best_at(s, start as int, top as int, min_pat_len as int, min_seq_len as int) == Some(q)
                    && q.seq_len <= s.len() - start,
                hit is None ==> best_at(s, start as int, top as int, min_pat_len as int, min_seq_len as int) is None,
            decreases test_pat_len,
        {
            match find_sequence_at_position(bytes, start, test_pat_len, min_seq_len) {
                Some(seq) => {
                    hit = Some(seq);
                    break;
                },
                None => {
                    test_pat_len = test_pat_len - 1;
                },
            }
        }
        let ghost before = seqs@;
        let ghost st = start as int;
        match hit {
            Some(seq) => {
                start = start + seq.seq_len;
                seqs.push(seq);
                proof {
                    let q = seqs@.last();
                    assert(seqs@ == before.push(q));
                    assert(sequences_from(s, st, mpl, msl) == seq![q] + if st + q.seq_len + 1 <= s.len() {
                        sequences_from(s, st + q.seq_len + 1, mpl, msl)
                    } else {
                        Seq::empty()
                    });
                    if st + q.seq_len + 1 > s.len() {
                        assert(sequences_from(s, st + q.seq_len + 1, mpl, msl) == Seq::<Sequence>::empty());
                    }
                    assert(seqs@ + sequences_from(s, st + q.seq_len + 1, mpl, msl) =~= before + sequences_from(s, st, mpl, msl));
                }
            },
            None => {},
        }
        start = start + 1;
    }
    seqs
}

} // verus!
