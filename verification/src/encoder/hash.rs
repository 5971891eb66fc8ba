//! A multiplicative rolling hash over a window of bytes, a cursor that walks it over a
//! buffer, and a table of the positions at which each hash was seen.
use vstd::prelude::*;
use vstd::arithmetic::div_mod::{lemma_add_mod_noop, lemma_mul_mod_noop_left, lemma_mul_mod_noop_right, lemma_small_mod, lemma_sub_mod_noop};
use vstd::arithmetic::power::pow;

verus! {

/// The hash of no bytes.
const INITIAL_VALUE: u32 = 0;
/// The multiplier the hashes are used with.
pub const MULTIPLICATVE: u32 = 257;

/// The polynomial of `s` in `m`: each byte weighted by `m` to the number of bytes after it.
pub open spec fn poly(s: Seq<u8>, m: int) -> int
    decreases s.len(),
{
    if s.len() == 0 {
        0
    } else {
        m * poly(s.drop_last(), m) + s.last()
    }
}

/// The multiplicative hash of `s`: its polynomial in `m`, modulo 2^32.
pub open spec fn mult_hash(s: Seq<u8>, m: u32) -> u32 {
    (poly(s, m as int) % 0x1_0000_0000) as u32
}

/// `m` to the power `e`, modulo 2^32.
pub open spec fn pow32(m: u32, e: nat) -> u32 {
    (pow(m as int, e) % 0x1_0000_0000) as u32
}

pub(crate) proof fn lemma_wrapping_add(x: u32, y: u32)
    ensures
        x.wrapping_add(y) as int == (x + y) % 0x1_0000_0000,
{
    if x + y > u32::MAX {
        assert((x + y) % 0x1_0000_0000 == x + y - 0x1_0000_0000) by (nonlinear_arith)
            requires
                0x1_0000_0000 <= x + y < 2 * 0x1_0000_0000,
        ;
    } else {
        lemma_small_mod((x + y) as nat, 0x1_0000_0000);
    }
}

pub(crate) proof fn lemma_wrapping_sub(x: u32, y: u32)
    ensures
        x.wrapping_sub(y) as int == (x - y) % 0x1_0000_0000,
{
    if x - y < 0 {
        assert((x - y) % 0x1_0000_0000 == x - y + 0x1_0000_0000) by (nonlinear_arith)
            requires
                -0x1_0000_0000 <= x - y < 0,
        ;
    } else {
        lemma_small_mod((x - y) as nat, 0x1_0000_0000);
    }
}

pub(crate) proof fn lemma_wrapping_mul(x: u32, y: u32)
    ensures
        x.wrapping_mul(y) as int == (x * y) % 0x1_0000_0000,
{
    assert(x * y >= 0) by (nonlinear_arith)
        requires
            x >= 0,
            y >= 0,
    ;
}

/// One more byte: the hash of `s` followed by `b` from the hash of `s`.
proof fn lemma_mult_hash_push(s: Seq<u8>, b: u8, m: u32)
    ensures
        m.wrapping_mul(mult_hash(s, m)).wrapping_add(b as u32) == mult_hash(s.push(b), m),
{
    let big: int = 0x1_0000_0000;
    let p = poly(s, m as int);
    assert(s.push(b).drop_last() =~= s);
    assert(poly(s.push(b), m as int) == m * p + b);
    lemma_wrapping_mul(m, mult_hash(s, m));
    lemma_wrapping_add(m.wrapping_mul(mult_hash(s, m)), b as u32);
    lemma_mul_mod_noop_right(m as int, p, big);
    lemma_add_mod_noop(m * p, b as int, big);
    lemma_small_mod(b as nat, big as nat);
    assert(((m * p) % big) % big == (m * p) % big) by {
        vstd::arithmetic::div_mod::lemma_mod_twice(m * p, big);
    }
}

/// The multiplicative hash of `key` in `multiplicative`.
pub fn hash_multiplicative(key: &[u8], multiplicative: u32) -> (r: u32)
    ensures
        r == mult_hash(key@, multiplicative),
{
    let mut hash: u32 = INITIAL_VALUE;
    let mut i: usize = 0;
    proof {
        assert(key@.subrange(0, 0) =~= Seq::<u8>::empty());
    }
    while i < key.len()
        invariant
            i <= key@.len(),
            hash == mult_hash(key@.subrange(0, i as int), multiplicative),
        decreases key@.len() - i,
    {
        proof {
            lemma_mult_hash_push(key@.subrange(0, i as int), key@[i as int], multiplicative);
            assert(key@.subrange(0, i as int).push(key@[i as int]) =~= key@.subrange(0, i + 1));
        }
        hash = multiplicative.wrapping_mul(hash).wrapping_add(key[i] as u32);
        i = i + 1;
    }
    proof {
        assert(key@.subrange(0, key@.len() as int) =~= key@);
    }
    hash
}

/// `multiplicative` to the power `exp`, wrapping.
fn wrapping_power(multiplicative: u32, exp: u32) -> (r: u32)
    ensures
        r == pow32(multiplicative, exp as nat),
{
    let ghost big: int = 0x1_0000_0000;
    let mut acc: u32 = 1;
    let mut k: u32 = 0;
    proof {
        vstd::arithmetic::power::lemma_pow0(multiplicative as int);
        lemma_small_mod(1, big as nat);
    }
    while k < exp
        invariant
            k <= exp,
            acc == pow32(multiplicative, k as nat),
        decreases exp - k,
    {
        proof {
            let p = pow(multiplicative as int, k as nat);
            lemma_wrapping_mul(multiplicative, acc);
            lemma_mul_mod_noop_right(multiplicative as int, p, 0x1_0000_0000);
            reveal(pow);
            assert(pow(multiplicative as int, (k + 1) as nat) == multiplicative * p);
        }
        acc = multiplicative.wrapping_mul(acc);
        k = k + 1;
    }
    acc
}

/// The polynomial of a nonempty window is its first byte, weighted, plus the polynomial of
/// the rest.
proof fn lemma_poly_first(w: Seq<u8>, m: int)
    requires
        w.len() >= 1,
    ensures
        poly(w, m) == pow(m, (w.len() - 1) as nat) * w[0] + poly(w.drop_first(), m),
    decreases w.len(),
{
    if w.len() == 1 {
        assert(w.drop_last() =~= Seq::<u8>::empty());
        assert(w.drop_first() =~= Seq::<u8>::empty());
        assert(w.last() == w[0]);
        assert(poly(Seq::<u8>::empty(), m) == 0);
        assert(poly(w.drop_last(), m) == 0);
        assert(m * 0 == 0);
        assert(poly(w, m) == w[0]);
        vstd::arithmetic::power::lemma_pow0(m);
        assert(pow(m, 0) * w[0] == w[0]);
    } else {
        let dl = w.drop_last();
        lemma_poly_first(dl, m);
        assert(dl.drop_first() =~= w.drop_first().drop_last());
        assert(w.drop_first().last() == w.last());
        assert(dl[0] == w[0]);
        let e = (w.len() - 1) as nat;
        assert(pow(m, e) == m * pow(m, (e - 1) as nat)) by {
            reveal(pow);
        }
        let a = pow(m, (e - 1) as nat);
        let x = w[0] as int;
        let q = poly(dl.drop_first(), m);
        assert(poly(dl, m) == a * x + q);
        assert(poly(w, m) == m * poly(dl, m) + w.last());
        assert(poly(w.drop_first(), m) == m * q + w.last());
        assert(m * (a * x + q) == (m * a) * x + m * q) by (nonlinear_arith);
    }
}

/// The hash of the window moved on by one byte: `subtract` leaves it, `add` enters.
pub fn roll_multiplicative_hash(current_hash: u32, subtract: u8, add: u8, multiplicative: u32, sub_pow: u32) -> (r: u32)
    ensures
        r as int == (multiplicative * ((current_hash - sub_pow * subtract) % 0x1_0000_0000) + add) % 0x1_0000_0000,
{
    let ghost big: int = 0x1_0000_0000;
    let subtract_value = sub_pow.wrapping_mul(subtract as u32);
    let minus = current_hash.wrapping_sub(subtract_value);
    let new_hash = multiplicative.wrapping_mul(minus).wrapping_add(add as u32);
    proof {
        lemma_wrapping_mul(sub_pow, subtract as u32);
        lemma_wrapping_sub(current_hash, subtract_value);
        lemma_wrapping_mul(multiplicative, minus);
        lemma_wrapping_add(multiplicative.wrapping_mul(minus), add as u32);
        lemma_small_mod(current_hash as nat, big as nat);
        lemma_sub_mod_noop(current_hash as int, sub_pow * subtract, big);
        lemma_mul_mod_noop_right(multiplicative as int, current_hash - sub_pow * subtract, big);
        lemma_add_mod_noop(multiplicative * (current_hash - sub_pow * subtract), add as int, big);
        lemma_small_mod(add as nat, big as nat);
        vstd::arithmetic::div_mod::lemma_mod_twice(multiplicative * (current_hash - sub_pow * subtract), big);
        lemma_mul_mod_noop_right(multiplicative as int, (current_hash - sub_pow * subtract) % big, big);
        vstd::arithmetic::div_mod::lemma_mod_twice(current_hash - sub_pow * subtract, big);
    }
    new_hash
}

/// Rolling the hash of a window gives the hash of the window moved on by one byte.
pub proof fn lemma_roll(w: Seq<u8>, add: u8, m: u32)
    requires
        w.len() >= 1,
    ensures
        (m * ((mult_hash(w, m) - pow32(m, (w.len() - 1) as nat) * w[0]) % 0x1_0000_0000) + add) % 0x1_0000_0000
            == mult_hash(w.drop_first().push(add), m),
{
    let big: int = 0x1_0000_0000;
    let e = (w.len() - 1) as nat;
    let pw = pow(m as int, e);
    let p = poly(w, m as int);
    let rest = poly(w.drop_first(), m as int);
    lemma_poly_first(w, m as int);
    assert(w.drop_first().push(add).drop_last() =~= w.drop_first());
    assert(poly(w.drop_first().push(add), m as int) == m * rest + add);
    // the hash of w less the first byte, weighted, is the polynomial of the rest
    lemma_mul_mod_noop_left(pw, w[0] as int, big);
    lemma_sub_mod_noop(p, pw * w[0], big);
    assert((mult_hash(w, m) - pow32(m, e) * w[0]) % big == (p % big - (pw * w[0]) % big) % big) by {
        lemma_sub_mod_noop(p % big, pow32(m, e) * w[0], big);
        vstd::arithmetic::div_mod::lemma_mod_twice(p, big);
        lemma_sub_mod_noop(p % big, pw * w[0], big);
    }
    assert(p - pw * w[0] == rest);
    lemma_mul_mod_noop_right(m as int, rest, big);
    lemma_add_mod_noop(m * rest, add as int, big);
    lemma_add_mod_noop(m * (rest % big), add as int, big);
    lemma_small_mod(add as nat, big as nat);
    vstd::arithmetic::div_mod::lemma_mod_twice(m * rest, big);
    vstd::arithmetic::div_mod::lemma_mod_twice(m * (rest % big), big);
}

/// A hash over a window of bytes that moves on one byte at a time.
#[derive(Clone, Debug)]
pub struct RollingHash {
    hash: u32,
    win: Vec<u8>,
    pos: usize,
    multiplicative: u32,
    sub_pow: u32,
}

impl RollingHash {
    /// The bytes in the window, oldest first.
    pub closed spec fn window(&self) -> Seq<u8> {
        self.win@.subrange(self.pos as int, self.win@.len() as int) + self.win@.subrange(0, self.pos as int)
    }

    /// The multiplier of the hash.
    pub closed spec fn mult(&self) -> u32 {
        self.multiplicative
    }

    /// The window holds at least one byte, the multiplier is odd and the hash is that of the
    /// window.
    pub closed spec fn wf(&self) -> bool {
        &&& 1 <= self.win@.len() <= u32::MAX
        &&& self.pos < self.win@.len()
        &&& self.multiplicative % 2 == 1
        &&& self.sub_pow == pow32(self.multiplicative, (self.win@.len() - 1) as nat)
        &&& self.hash == mult_hash(self.window(), self.multiplicative)
    }

    /// A rolling hash over `initial_win` (`multiplicative` must be odd).
    pub fn new(initial_win: &[u8], multiplicative: u32) -> (r: Self)
        requires
            multiplicative % 2 == 1,
            1 <= initial_win@.len() <= u32::MAX,
        ensures
            r.wf(),
            r.window() == initial_win@,
            r.mult() == multiplicative,
    {
        let hash = hash_multiplicative(initial_win, multiplicative);
        let sub_pow = wrapping_power(multiplicative, initial_win.len() as u32 - 1);
        let r = RollingHash { hash, win: vstd::slice::slice_to_vec(initial_win), pos: 0, multiplicative, sub_pow };
        proof {
            assert(r.window() =~= initial_win@);
        }
        r
    }

    /// Moves the window on by one byte: its oldest byte leaves, `new_char` enters.
    pub fn update(&mut self, new_char: u8)
        requires
            old(self).wf(),
        ensures
            final(self).wf(),
            final(self).window() == old(self).window().drop_first().push(new_char),
            final(self).mult() == old(self).mult(),
    {
        let ghost w = self.window();
        let oldest = self.win[self.pos];
        proof {
            assert(w[0] == self.win@[self.pos as int]);
            lemma_roll(w, new_char, self.multiplicative);
        }
        self.hash = roll_multiplicative_hash(self.hash, oldest, new_char, self.multiplicative, self.sub_pow);
        let ghost before = self.win@;
        self.win.set(self.pos, new_char);
        let n = self.win.len();
        let ghost p = self.pos as int;
        self.pos = (self.pos + 1) % n;
        proof {
            let after = self.win@;
            assert(after == before.update(p, new_char));
            assert(w =~= before.subrange(p, n as int) + before.subrange(0, p));
            let a = before.subrange(p + 1, n as int);
            let b = before.subrange(0, p);
            assert(w.drop_first() =~= a + b);
            if p + 1 < n {
                lemma_small_mod((p + 1) as nat, n as nat);
                assert(self.pos == p + 1);
                assert(after.subrange(p + 1, n as int) =~= a);
                assert(after.subrange(0, p + 1) =~= b.push(new_char));
                assert(self.window() =~= (a + b).push(new_char));
            } else {
                assert((p + 1) % (n as int) == 0) by (nonlinear_arith)
                    requires
                        p + 1 == n,
                        n > 0,
                ;
                assert(self.pos == 0);
                assert(a =~= Seq::<u8>::empty());
                assert(after.subrange(0, n as int) =~= b.push(new_char));
                assert(self.window() =~= (a + b).push(new_char));
            }
        }
    }

    /// The hash of the window.
    pub fn hash(&self) -> (r: u32)
        requires
            self.wf(),
        ensures
            r == mult_hash(self.window(), self.mult()),
    {
        self.hash
    }

    /// The number of bytes in the window.
    fn win_len(&self) -> (r: usize)
        requires
            self.wf(),
        ensures
            r == self.window().len(),
    {
        self.win.len()
    }
}

/// The window `w` after `update` with each byte of `s` in turn: each call drops the oldest
/// byte and appends the new one.
pub open spec fn rolled(w: Seq<u8>, s: Seq<u8>) -> Seq<u8>
    decreases s.len(),
{
    if s.len() == 0 {
        w
    } else {
        rolled(w, s.drop_last()).drop_first().push(s.last())
    }
}

/// Rolling a window over the bytes `s`, one `update` per byte, leaves it holding the last
/// `w.len()` bytes of `w` followed by `s`; the hash is then that of those bytes.
pub proof fn lemma_rolled_window(w: Seq<u8>, s: Seq<u8>, m: u32)
    requires
        w.len() >= 1,
    ensures
        rolled(w, s) == (w + s).subrange(s.len() as int, (w.len() + s.len()) as int),
        mult_hash(rolled(w, s), m) == mult_hash((w + s).subrange(s.len() as int, (w.len() + s.len()) as int), m),
    decreases s.len(),
{
    if s.len() > 0 {
        let t = s.drop_last();
        lemma_rolled_window(w, t, m);
        let prev = (w + t).subrange(t.len() as int, (w.len() + t.len()) as int);
        assert(prev.drop_first().push(s.last()) =~= (w + s).subrange(s.len() as int, (w.len() + s.len()) as int));
    }
}

/// A rolling hash walked over a buffer, one window position after the other.
#[derive(Clone, Debug)]
pub struct HashCursor<'a> {
    rolling_hash: RollingHash,
    slice: &'a [u8],
    start_pos: usize,
}

impl<'a> HashCursor<'a> {
    /// The buffer walked over.
    pub closed spec fn data(&self) -> Seq<u8> {
        self.slice@
    }

    /// Where the window starts.
    pub closed spec fn at(&self) -> int {
        self.start_pos as int
    }

    /// The number of bytes in the window.
    pub closed spec fn win_size(&self) -> nat {
        self.rolling_hash.window().len()
    }

    /// The multiplier of the hash.
    pub closed spec fn mult(&self) -> u32 {
        self.rolling_hash.mult()
    }

    /// The window lies in the buffer, where the cursor is.
    pub closed spec fn wf(&self) -> bool {
        &&& self.rolling_hash.wf()
        &&& self.start_pos + self.win_size() <= self.slice@.len()
        &&& self.rolling_hash.window() == self.slice@.subrange(self.start_pos as int, self.start_pos + self.win_size())
    }

    /// A cursor at the start of `slice` with a window of `win_size` bytes.
    pub fn new(slice: &'a [u8], win_size: u32, multiplicative: u32) -> (r: Self)
        requires
            1 <= win_size <= slice@.len(),
            multiplicative % 2 == 1,
        ensures
            r.wf(),
            r.data() == slice@,
            r.at() == 0,
            r.win_size() == win_size,
            r.mult() == multiplicative,
    {
        let rolling_hash = RollingHash::new(vstd::slice::slice_subrange(slice, 0, win_size as usize), multiplicative);
        HashCursor { rolling_hash, slice, start_pos: 0 }
    }

    /// The hash of the window and where it starts, the window then moved on by one byte;
    /// None once the window ends at the last byte of the buffer.
    pub fn next(&mut self) -> (r: Option<(u32, usize)>)
        requires
            old(self).wf(),
        ensures
            final(self).wf(),
            final(self).data() == old(self).data(),
            final(self).win_size() == old(self).win_size(),
            final(self).mult() == old(self).mult(),
            old(self).at() + old(self).win_size() < old(self).data().len() ==> r == Some((
                mult_hash(old(self).data().subrange(old(self).at(), old(self).at() + old(self).win_size()), old(self).mult()),
                old(self).at() as usize,
            )) && final(self).at() == old(self).at() + 1,
            old(self).at() + old(self).win_size() >= old(self).data().len() ==> r is None && final(self).at() == old(self).at(),
    {
        let len = self.slice.len();
        let end_pos = self.start_pos + self.rolling_hash.win_len();
        if end_pos >= len {
            return None;
        }
        let hash = self.rolling_hash.hash();
        let start_pos = self.start_pos;
        let ghost w = self.rolling_hash.window();
        self.rolling_hash.update(self.slice[end_pos]);
        self.start_pos = self.start_pos + 1;
        proof {
            assert(w.drop_first().push(self.slice@[end_pos as int]) =~= self.slice@.subrange(self.start_pos as int, self.start_pos + w.len()));
        }
        Some((hash, start_pos))
    }

    /// The hash of the window at `pos`, the cursor then just after it; None where that window
    /// ends at the last byte of the buffer or past it.
    pub fn seek(&mut self, pos: usize) -> (r: Option<u32>)
        requires
            old(self).wf(),
            pos + old(self).win_size() <= usize::MAX,
        ensures
            final(self).wf(),
            final(self).data() == old(self).data(),
            final(self).win_size() == old(self).win_size(),
            final(self).mult() == old(self).mult(),
            pos + old(self).win_size() < old(self).data().len() ==> r == Some(
                mult_hash(old(self).data().subrange(pos as int, pos + old(self).win_size()), old(self).mult()),
            ) && final(self).at() == pos + 1,
            pos + old(self).win_size() >= old(self).data().len() ==> r is None,
    {
        if pos == self.start_pos {
            return match self.next() {
                Some((hash, _start)) => Some(hash),
                None => None,
            };
        }
        let n = self.rolling_hash.win_len();
        let end_pos = pos + n;
        if end_pos > self.slice.len() {
            return None;
        }
        let prev_end = self.start_pos + n;
        if self.start_pos <= pos && pos < prev_end && pos > self.start_pos {
            let diff = pos - self.start_pos;
            let mut k: usize = 0;
            while k < diff
                invariant
                    self.wf(),
                    self.data() == old(self).data(),
                    self.win_size() == n,
                    self.mult() == old(self).mult(),
                    k <= diff,
                    self.at() == old(self).at() + k,
                    diff == pos - old(self).at(),
                    pos + n <= self.data().len(),
                decreases diff - k,
            {
                self.next();
                k = k + 1;
            }
            return match self.next() {
                Some((hash, _start)) => Some(hash),
                None => None,
            };
        }
        let mult = self.rolling_hash.multiplicative;
        self.start_pos = pos;
        self.rolling_hash = RollingHash::new(vstd::slice::slice_subrange(self.slice, pos, end_pos), mult);
        match self.next() {
            Some((hash, _start)) => Some(hash),
            None => None,
        }
    }
}

/// The positions a hash table bucket holds: up to three inline (u32::MAX marks a free
/// slot), or more in an overflow list.
#[derive(Debug, Clone, PartialEq, Eq)]
pub enum Value {
    SeenFew([u32; 3]),
    SeenMany { vec_idx: usize },
}

/// The positions held inline: those before the first free slot.
pub open spec fn few_positions(a: [u32; 3]) -> Seq<u32> {
    if a[0] == u32::MAX {
        Seq::empty()
    } else if a[1] == u32::MAX {
        seq![a[0]]
    } else if a[2] == u32::MAX {
        seq![a[0], a[1]]
    } else {
        seq![a[0], a[1], a[2]]
    }
}

/// The inline slots are filled from the front: no position after a free slot.
pub open spec fn few_ok(a: [u32; 3]) -> bool {
    &&& a[0] == u32::MAX ==> a[1] == u32::MAX
    &&& a[1] == u32::MAX ==> a[2] == u32::MAX
}

/// The number of inline slots in use.
pub open spec fn few_count(a: [u32; 3]) -> nat {
    (if a[0] != u32::MAX { 1nat } else { 0nat }) + (if a[1] != u32::MAX { 1nat } else { 0nat }) + (if a[2] != u32::MAX {
        1nat
    } else {
        0nat
    })
}

/// The inline slots with `pos` written into the first free one.
pub open spec fn few_pushed(a: [u32; 3], pos: u32) -> [u32; 3] {
    if a[0] == u32::MAX {
        [pos, a[1], a[2]]
    } else if a[1] == u32::MAX {
        [a[0], pos, a[2]]
    } else {
        [a[0], a[1], pos]
    }
}

impl Default for Value {
    fn default() -> (r: Self)
        ensures
            r == Value::SeenFew([u32::MAX, u32::MAX, u32::MAX]),
    {
        Value::SeenFew([u32::MAX, u32::MAX, u32::MAX])
    }
}

impl Value {
    /// Whether the positions are in an overflow list.
    pub fn is_many(&self) -> (r: bool)
        ensures
            r == (*self is SeenMany),
    {
        match self {
            Value::SeenMany { .. } => true,
            _ => false,
        }
    }

    /// Whether one more position fits inline.
    pub fn can_push(&self) -> (r: bool)
        ensures
            r == (*self matches Value::SeenFew(a) && a[2] == u32::MAX),
    {
        match self {
            Value::SeenFew(a) => a[2] == u32::MAX,
            _ => false,
        }
    }

    /// The overflow list the positions are in, if they are in one.
    pub fn many(&self) -> (r: Option<usize>)
        ensures
            r == (match *self {
                Value::SeenMany { vec_idx } => Some(vec_idx),
                _ => None,
            }),
    {
        match self {
            Value::SeenMany { vec_idx } => Some(*vec_idx),
            _ => None,
        }
    }

    /// The number of inline slots in use and the slots, if the positions are inline.
    pub fn few(&self) -> (r: Option<(usize, &[u32; 3])>)
        ensures
            r == (match *self {
                Value::SeenFew(a) => Some((few_count(a) as usize, &a)),
                _ => None,
            }),
    {
        match self {
            Value::SeenFew(arr) => {
                let count = (if arr[0] != u32::MAX { 1usize } else { 0 }) + (if arr[1] != u32::MAX { 1usize } else { 0 }) + (if arr[2]
                    != u32::MAX {
                    1usize
                } else {
                    0
                });
                Some((count, arr))
            },
            Value::SeenMany { .. } => None,
        }
    }

    /// Writes `pos` into the first free inline slot (there must be one).
    pub fn push(&mut self, pos: u32)
        requires
            *old(self) matches Value::SeenFew(a) && a[2] == u32::MAX,
        ensures
            *final(self) == Value::SeenFew(few_pushed(old(self)->SeenFew_0, pos)),
    {
        let a = match self {
            Value::SeenFew(a) => *a,
            Value::SeenMany { .. } => [0u32, 0, 0],
        };
        let pushed = if a[0] == u32::MAX {
            [pos, a[1], a[2]]
        } else if a[1] == u32::MAX {
            [a[0], pos, a[2]]
        } else {
            [a[0], a[1], pos]
        };
        *self = Value::SeenFew(pushed);
    }

    /// Moves the positions to overflow list `vec_idx`, handing back the three inline ones
    /// (all three slots must be in use).
    pub fn upgrade(&mut self, vec_idx: usize) -> (r: [u32; 3])
        requires
            *old(self) matches Value::SeenFew(a) && few_count(a) == 3,
        ensures
            r == old(self)->SeenFew_0,
            *final(self) == (Value::SeenMany { vec_idx }),
    {
        let v = match self {
            Value::SeenFew(a) => *a,
            Value::SeenMany { .. } => [0u32, 0, 0],
        };
        *self = Value::SeenMany { vec_idx };
        v
    }
}

/// The bucket of `hash` in a table of `n` buckets.
pub open spec fn bucket_of(hash: u32, n: int) -> int {
    hash as int % n
}

/// A bucket's positions with `pos` recorded: a position equal to u32::MAX reads as a free
/// slot, so it is lost while the positions are held inline.
pub open spec fn bucket_push(b: Seq<u32>, pos: u32) -> Seq<u32> {
    if b.len() < 3 && pos == u32::MAX {
        b
    } else {
        b.push(pos)
    }
}

/// The table with `pos` recorded under `hash`.
pub open spec fn insert_view(v: Seq<Seq<u32>>, hash: u32, pos: u32) -> Seq<Seq<u32>> {
    v.update(bucket_of(hash, v.len() as int), bucket_push(v[bucket_of(hash, v.len() as int)], pos))
}

/// The number of buckets that hold a position.
pub open spec fn nonempty_buckets(v: Seq<Seq<u32>>) -> nat
    decreases v.len(),
{
    if v.len() == 0 {
        0
    } else {
        nonempty_buckets(v.drop_last()) + if v.last().len() > 0 { 1nat } else { 0nat }
    }
}

/// A hash table of the positions at which each hash was seen.
#[derive(Clone, Debug)]
pub struct ChunkHashMap {
    buckets: Vec<Value>,
    overflow: Vec<Vec<u32>>,
}

impl ChunkHashMap {
    /// The positions bucket `i` holds.
    closed spec fn bucket_positions(&self, i: int) -> Seq<u32> {
        match self.buckets@[i] {
            Value::SeenFew(a) => few_positions(a),
            Value::SeenMany { vec_idx } => self.overflow@[vec_idx as int]@,
        }
    }

    /// At least one bucket; inline slots filled from the front; each overflow list, of more
    /// than three positions, belongs to one bucket.
    pub closed spec fn wf(&self) -> bool {
        &&& self.buckets@.len() >= 1
        &&& forall|i: int| 0 <= i < self.buckets@.len() ==> match #[trigger] self.buckets@[i] {
            Value::SeenFew(a) => few_ok(a),
            Value::SeenMany { vec_idx } => vec_idx < self.overflow@.len() && self.overflow@[vec_idx as int]@.len() >= 4,
        }
        &&& forall|i: int, j: int| 0 <= i < self.buckets@.len() && 0 <= j < self.buckets@.len() && i != j
            && (#[trigger] self.buckets@[i]) is SeenMany && (#[trigger] self.buckets@[j]) is SeenMany
            ==> self.buckets@[i]->vec_idx != self.buckets@[j]->vec_idx
    }
}

impl View for ChunkHashMap {
    type V = Seq<Seq<u32>>;

    /// The positions each bucket holds.
    closed spec fn view(&self) -> Seq<Seq<u32>> {
        Seq::new(self.buckets@.len(), |i: int| self.bucket_positions(i))
    }
}

impl ChunkHashMap {
    /// An empty table of `table_size` buckets (at least one).
    pub fn new(table_size: u32) -> (r: Self)
        ensures
            r.wf(),
            r@ == Seq::new(if table_size < 1 { 1nat } else { table_size as nat }, |i: int| Seq::<u32>::empty()),
    {
        let n: usize = if table_size < 1 { 1 } else { table_size as usize };
        let mut buckets: Vec<Value> = Vec::new();
        let mut i: usize = 0;
        while i < n
            invariant
                i <= n,
                buckets@.len() == i,
                forall|k: int| 0 <= k < i ==> #[trigger] buckets@[k] == Value::SeenFew([u32::MAX, u32::MAX, u32::MAX]),
            decreases n - i,
        {
            buckets.push(Value::default());
            i = i + 1;
        }
        let r = ChunkHashMap { buckets, overflow: Vec::new() };
        proof {
            assert(few_positions([u32::MAX, u32::MAX, u32::MAX]) == Seq::<u32>::empty());
            assert(r@ =~= Seq::new(n as nat, |i: int| Seq::<u32>::empty()));
        }
        r
    }

    /// Records `start_pos` under `rolling_hash_value`.
    pub fn insert(&mut self, rolling_hash_value: u32, start_pos: u32)
        requires
            old(self).wf(),
        ensures
            final(self).wf(),
            final(self)@ == insert_view(old(self)@, rolling_hash_value, start_pos),
    {
        let index = (rolling_hash_value as usize) % self.buckets.len();
        let ghost old_view = self@;
        let ghost old_buckets = self.buckets@;
        let ghost old_overflow = self.overflow@;
        let mut value = Value::default();
        std::mem::swap(&mut value, &mut self.buckets[index]);
        assert(value == old_buckets[index as int]);
        if value.can_push() {
            value.push(start_pos);
        } else if !value.is_many() {
            let vec_idx = self.overflow.len();
            let values = value.upgrade(vec_idx);
            let mut vec: Vec<u32> = Vec::new();
            vec.push(values[0]);
            vec.push(values[1]);
            vec.push(values[2]);
            vec.push(start_pos);
            self.overflow.push(vec);
        } else {
            let vec_idx = match value.many() {
                Some(v) => v,
                None => 0,
            };
            self.overflow[vec_idx].push(start_pos);
        }
        self.buckets.set(index, value);
        proof {
            assert(self.buckets@ == old_buckets.update(index as int, value));
            assert forall|i: int| 0 <= i < self.buckets@.len() && i != index implies self.bucket_positions(i)
                == old_view[i] by {
                assert(self.buckets@[i] == old_buckets[i]);
                if let Value::SeenMany { vec_idx } = old_buckets[i] {
                    if old_buckets[index as int] is SeenMany {
                        assert(old_buckets[index as int]->vec_idx != vec_idx);
                    }
                    assert(self.overflow@[vec_idx as int] == old_overflow[vec_idx as int]);
                }
            }
            assert(self.bucket_positions(index as int) =~= bucket_push(old_view[index as int], start_pos));
            assert(self@ =~= insert_view(old_view, rolling_hash_value, start_pos));
        }
    }

    fn get_bucket(&self, rolling_hash_value: u32) -> (r: &Value)
        requires
            self.wf(),
        ensures
            *r == self.buckets@[bucket_of(rolling_hash_value, self.buckets@.len() as int)],
    {
        let index = (rolling_hash_value as usize) % self.buckets.len();
        &self.buckets[index]
    }

    /// The positions recorded in the bucket of `rolling_hash_value`; None where there are none.
    pub fn get(&self, rolling_hash_value: u32) -> (r: Option<&[u32]>)
        requires
            self.wf(),
        ensures
            r matches Some(s) ==> s@ == self@[bucket_of(rolling_hash_value, self@.len() as int)],
            r is None <==> self@[bucket_of(rolling_hash_value, self@.len() as int)].len() == 0,
    {
        let bucket = self.get_bucket(rolling_hash_value);
        match bucket {
            Value::SeenFew(arr) => {
                let count = (if arr[0] != u32::MAX { 1usize } else { 0 }) + (if arr[1] != u32::MAX { 1usize } else { 0 }) + (if arr[2]
                    != u32::MAX {
                    1usize
                } else {
                    0
                });
                if count == 0 {
                    return None;
                }
                let s = vstd::slice::slice_subrange(arr.as_slice(), 0, count);
                proof {
                    assert(s@ =~= few_positions(*arr));
                }
                Some(s)
            },
            Value::SeenMany { vec_idx } => Some(self.overflow[*vec_idx].as_slice()),
        }
    }

    /// The number of buckets that hold a position.
    pub fn num_hashes(&self) -> (r: usize)
        requires
            self.wf(),
        ensures
            r == nonempty_buckets(self@),
    {
        let mut count: usize = 0;
        let mut i: usize = 0;
        while i < self.buckets.len()
            invariant
                self.wf(),
                i <= self.buckets@.len(),
                count == nonempty_buckets(self@.subrange(0, i as int)),
                count <= i,
            decreases self.buckets@.len() - i,
        {
            let used = match &self.buckets[i] {
                Value::SeenFew(arr) => arr[0] != u32::MAX,
                Value::SeenMany { .. } => true,
            };
            proof {
                let v = self@.subrange(0, i + 1);
                assert(v.drop_last() =~= self@.subrange(0, i as int));
                assert(v.last() == self@[i as int]);
                assert(used == (self@[i as int].len() > 0));
            }
            if used {
                count = count + 1;
            }
            i = i + 1;
        }
        proof {
            assert(self@.subrange(0, self@.len() as int) =~= self@);
        }
        count
    }
}

/// The table `v0` after recording, in order, each of the first `k` windows of `win` bytes of
/// `s` under its hash, at `abs` plus the window's offset.
pub open spec fn chunk_view(v0: Seq<Seq<u32>>, s: Seq<u8>, abs: int, win: int, m: u32, k: int) -> Seq<Seq<u32>>
    decreases k,
{
    if k <= 0 {
        v0
    } else {
        insert_view(chunk_view(v0, s, abs, win, m, k - 1), mult_hash(s.subrange(k - 1, k - 1 + win), m), (abs + k - 1) as u32)
    }
}

/// The empty table of `table_size` buckets (at least one).
pub open spec fn empty_table(table_size: u32) -> Seq<Seq<u32>> {
    Seq::new(if table_size < 1 { 1nat } else { table_size as nat }, |i: int| Seq::<u32>::empty())
}

/// Records the position of every window of `win_size` bytes of `slice` (at `abs_start_pos`
/// plus its offset) under the window's hash, in a table of `table_size` buckets.
pub fn hash_chunk(slice: &[u8], abs_start_pos: u32, win_size: u32, multiplicative: u32, table_size: u32) -> (r: ChunkHashMap)
    requires
        slice@.len() >= win_size ==> {
            &&& win_size >= 1
            &&& multiplicative % 2 == 1
            &&& slice@.len() <= 0x1_0000_0000
            &&& abs_start_pos + slice@.len() - win_size <= u32::MAX
        },
    ensures
        r.wf(),
        slice@.len() < win_size ==> r@ == empty_table(table_size),
        slice@.len() >= win_size ==> r@ == chunk_view(
            empty_table(table_size),
            slice@,
            abs_start_pos as int,
            win_size as int,
            multiplicative,
            slice@.len() - win_size + 1,
        ),
{
    if slice.len() < win_size as usize {
        return ChunkHashMap::new(table_size);
    }
    let ghost s = slice@;
    let ghost v0 = empty_table(table_size);
    let win = win_size as usize;
    let mut rolling_hash = RollingHash::new(vstd::slice::slice_subrange(slice, 0, win), multiplicative);
    let mut chunk_map = ChunkHashMap::new(table_size);
    chunk_map.insert(rolling_hash.hash(), abs_start_pos);
    proof {
        assert(chunk_map@ == chunk_view(v0, s, abs_start_pos as int, win as int, multiplicative, 1)) by {
            assert(chunk_view(v0, s, abs_start_pos as int, win as int, multiplicative, 0) == v0);
        }
    }
    let mut i: usize = win;
    while i < slice.len()
        invariant
            s == slice@,
            win == win_size,
            1 <= win <= i <= s.len(),
            s.len() <= 0x1_0000_0000,
            abs_start_pos + s.len() - win <= u32::MAX,
            rolling_hash.wf(),
            rolling_hash.mult() == multiplicative,
            rolling_hash.window() == s.subrange(i - win, i as int),
            chunk_map.wf(),
            chunk_map@ == chunk_view(v0, s, abs_start_pos as int, win as int, multiplicative, i - win + 1),
        decreases s.len() - i,
    {
        let byte = slice[i];
        let ghost w = rolling_hash.window();
        rolling_hash.update(byte);
        proof {
            assert(w.drop_first().push(byte) =~= s.subrange(i - win + 1, i + 1));
        }
        let rel_pos = i as u32 - win_size + 1;
        let abs_pos = rel_pos + abs_start_pos;
        chunk_map.insert(rolling_hash.hash(), abs_pos);
        i = i + 1;
    }
    chunk_map
}

/// Every window recorded, at a position other than u32::MAX, is in the bucket of its hash.
pub proof fn lemma_chunk_view_records(v0: Seq<Seq<u32>>, s: Seq<u8>, abs: int, win: int, m: u32, k: int)
    requires
        v0.len() >= 1,
    ensures
        chunk_view(v0, s, abs, win, m, k).len() == v0.len(),
        forall|j: int| 0 <= j < k && (abs + j) as u32 != u32::MAX ==> #[trigger] chunk_view(v0, s, abs, win, m, k)[bucket_of(
            mult_hash(s.subrange(j, j + win), m),
            v0.len() as int,
        )].contains((abs + j) as u32),
    decreases k,
{
    if k > 0 {
        lemma_chunk_view_records(v0, s, abs, win, m, k - 1);
        let prev = chunk_view(v0, s, abs, win, m, k - 1);
        let cur = chunk_view(v0, s, abs, win, m, k);
        let h = mult_hash(s.subrange(k - 1, k - 1 + win), m);
        let p = (abs + k - 1) as u32;
        let b = bucket_of(h, v0.len() as int);
        assert(0 <= b < v0.len()) by (nonlinear_arith)
            requires
                b == h as int % (v0.len() as int),
                v0.len() >= 1,
        ;
        assert forall|j: int| 0 <= j < k && (abs + j) as u32 != u32::MAX implies #[trigger] cur[bucket_of(
            mult_hash(s.subrange(j, j + win), m),
            v0.len() as int,
        )].contains((abs + j) as u32) by {
            let bj = bucket_of(mult_hash(s.subrange(j, j + win), m), v0.len() as int);
            if j < k - 1 {
                assert(prev[bj].contains((abs + j) as u32));
                let x = choose|x: int| 0 <= x < prev[bj].len() && prev[bj][x] == (abs + j) as u32;
                if bj == b {
                    assert(cur[bj] == bucket_push(prev[bj], p));
                    assert(cur[bj][x] == prev[bj][x]);
                } else {
                    assert(cur[bj] == prev[bj]);
                }
            } else {
                assert(cur[b] == bucket_push(prev[b], p));
                assert(cur[b][cur[b].len() - 1] == p);
            }
        }
    }
}

} // verus!
