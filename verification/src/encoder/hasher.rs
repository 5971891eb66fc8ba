//! Rolling checksums over fixed windows: a 9 byte window ("large") for source
//! matching and a 4 byte window ("small") for target matching. Arithmetic wraps.
use vstd::prelude::*;
use vstd::arithmetic::div_mod::{lemma_add_mod_noop, lemma_mod_multiples_vanish, lemma_mod_twice, lemma_mul_mod_noop_left, lemma_mul_mod_noop_right, lemma_small_mod, lemma_sub_mod_noop};

verus! {

/// Multiplier that shifts the large window by one byte.
pub const HASH_MULT: u64 = 1181783497276652981;
/// Multiplicative inverse of `HASH_MULT` modulo 2^64.
pub const MOD_INV: u64 = 13515856136758413469;
/// Weight of the first byte of the large window.
pub const FIRST_BYTE_WEIGHT: u64 = 2694756932615366293;
/// Weight of the first byte of the small window.
pub const SMALL_FIRST_BYTE_WEIGHT: u32 = 2508840081;
/// Multiplier that shifts the small window by one byte.
pub const SMALL_HASH_MULT: u32 = 3141592653;
/// Bytes in the large window.
pub const LARGE_WINDOW: usize = 9;
/// Bytes in the small window.
pub const SMALL_WINDOW: usize = 4;

/// Weight of byte `i` of the large window.
pub open spec fn large_power(i: int) -> u64 {
    if i == 0 {
        12309708155212419425
    } else if i == 1 {
        10962798122732597373
    } else if i == 2 {
        17101839937587700905
    } else if i == 3 {
        4214492644603347877
    } else if i == 4 {
        1752871083341145137
    } else if i == 5 {
        13959273915025570317
    } else if i == 6 {
        12787978306174927353
    } else if i == 7 {
        1181783497276652981
    } else {
        1
    }
}

/// Weight of byte `i` of the small window.
pub open spec fn small_power(i: int) -> u32 {
    if i == 0 {
        1143961941
    } else if i == 1 {
        1940812585
    } else if i == 2 {
        3141592653
    } else {
        1
    }
}

fn large_power_at(i: usize) -> (r: u64)
    requires
        i < 9,
    ensures
        r == large_power(i as int),
{
    match i {
        0 => 12309708155212419425,
        1 => 10962798122732597373,
        2 => 17101839937587700905,
        3 => 4214492644603347877,
        4 => 1752871083341145137,
        5 => 13959273915025570317,
        6 => 12787978306174927353,
        7 => 1181783497276652981,
        _ => 1,
    }
}

fn small_power_at(i: usize) -> (r: u32)
    requires
        i < 4,
    ensures
        r == small_power(i as int),
{
    match i {
        0 => 1143961941,
        1 => 1940812585,
        2 => 3141592653,
        _ => 1,
    }
}

/// The weighted sum (wrapping) of the first `n` bytes of `data`.
pub open spec fn large_sum(data: Seq<u8>, n: int) -> u64
    decreases n,
{
    if n <= 0 {
        0
    } else {
        large_sum(data, n - 1).wrapping_add(large_power(n - 1).wrapping_mul(data[n - 1] as u64))
    }
}

/// The weighted sum (wrapping) of the first `n` bytes of `data`, small weights.
pub open spec fn small_sum(data: Seq<u8>, n: int) -> u32
    decreases n,
{
    if n <= 0 {
        0
    } else {
        small_sum(data, n - 1).wrapping_add(small_power(n - 1).wrapping_mul(data[n - 1] as u32))
    }
}

/// The large checksum of a window: the first (up to) 9 bytes of `data`, weighted.
pub open spec fn large_checksum(data: Seq<u8>) -> u64 {
    large_sum(data, if data.len() < 9 { data.len() as int } else { 9 })
}

/// The small checksum of a window: the first (up to) 4 bytes of `data`, weighted.
pub open spec fn small_checksum(data: Seq<u8>) -> u32 {
    small_sum(data, if data.len() < 4 { data.len() as int } else { 4 })
}

/// The weighted sum of the first `n` bytes reads no byte after them.
proof fn lemma_large_sum_prefix(a: Seq<u8>, b: Seq<u8>, n: int)
    requires
        n <= a.len(),
        n <= b.len(),
        forall|i: int| 0 <= i < n ==> a[i] == b[i],
    ensures
        large_sum(a, n) == large_sum(b, n),
    decreases n,
{
    if n > 0 {
        lemma_large_sum_prefix(a, b, n - 1);
    }
}

/// The large checksum of a window of at least 9 bytes is that of its first 9 bytes.
pub proof fn lemma_large_checksum_first9(s: Seq<u8>)
    requires
        s.len() >= 9,
    ensures
        large_checksum(s) == large_checksum(s.subrange(0, 9)),
{
    lemma_large_sum_prefix(s, s.subrange(0, 9), 9);
}

/// The checksum of the (up to) first 9 bytes of `data`.
pub fn calculate_large_checksum(data: &[u8]) -> (r: u64)
    ensures
        r == large_checksum(data@),
{
    let n: usize = if data.len() < 9 { data.len() } else { 9 };
    let mut acc: u64 = 0;
    let mut i: usize = 0;
    while i < n
        invariant
            i <= n,
            n <= 9,
            n <= data@.len(),
            n == (if data@.len() < 9 { data@.len() as int } else { 9 }),
            acc == large_sum(data@, i as int),
        decreases n - i,
    {
        let p = large_power_at(i);
        acc = acc.wrapping_add(p.wrapping_mul(data[i] as u64));
        i = i + 1;
    }
    acc
}

/// The large checksum of the window moved forward by one byte: `old` leaves, `new` enters.
pub fn update_large_checksum_fwd(checksum: u64, old: u8, new: u8) -> (r: u64)
    ensures
        r == large_fwd(checksum, old, new),
{
    HASH_MULT.wrapping_mul(checksum).wrapping_sub(FIRST_BYTE_WEIGHT.wrapping_mul(old as u64)).wrapping_add(new as u64)
}

/// The large checksum of the window moved back by one byte: `old` leaves, `new` enters.
pub fn update_large_checksum_bwd(checksum: u64, old: u8, new: u8) -> (r: u64)
    ensures
        r == large_bwd(checksum, old, new),
{
    checksum.wrapping_sub(old as u64).wrapping_add(FIRST_BYTE_WEIGHT.wrapping_mul(new as u64)).wrapping_mul(MOD_INV)
}

/// The checksum of the (up to) first 4 bytes of `data`.
pub fn calculate_small_checksum(data: &[u8]) -> (r: u32)
    ensures
        r == small_checksum(data@),
{
    let n: usize = if data.len() < 4 { data.len() } else { 4 };
    let mut acc: u32 = 0;
    let mut i: usize = 0;
    while i < n
        invariant
            i <= n,
            n <= 4,
            n <= data@.len(),
            n == (if data@.len() < 4 { data@.len() as int } else { 4 }),
            acc == small_sum(data@, i as int),
        decreases n - i,
    {
        let p = small_power_at(i);
        acc = acc.wrapping_add(p.wrapping_mul(data[i] as u32));
        i = i + 1;
    }
    acc
}

/// The small checksum of the window moved forward by one byte: `old` leaves, `new` enters.
pub fn update_small_checksum_fwd(checksum: u32, old: u8, new: u8) -> (r: u32)
    ensures
        r == small_fwd(checksum, old, new),
{
    SMALL_HASH_MULT.wrapping_mul(checksum).wrapping_sub(SMALL_FIRST_BYTE_WEIGHT.wrapping_mul(old as u32)).wrapping_add(new as u32)
}

// ---------------------------------------------------------------------------
// Rolling: moving a window by one byte gives the checksum of the moved window
// ---------------------------------------------------------------------------
proof fn lemma_wrapping_add64(x: u64, y: u64)
    ensures
        x.wrapping_add(y) as int == (x + y) % 0x1_0000_0000_0000_0000,
{
    if x + y > u64::MAX {
        assert((x + y) % 0x1_0000_0000_0000_0000 == x + y - 0x1_0000_0000_0000_0000) by (nonlinear_arith)
            requires
                0x1_0000_0000_0000_0000 <= x + y < 2 * 0x1_0000_0000_0000_0000,
        ;
    } else {
        lemma_small_mod((x + y) as nat, 0x1_0000_0000_0000_0000);
    }
}

proof fn lemma_wrapping_sub64(x: u64, y: u64)
    ensures
        x.wrapping_sub(y) as int == (x - y) % 0x1_0000_0000_0000_0000,
{
    if x - y < 0 {
        assert((x - y) % 0x1_0000_0000_0000_0000 == x - y + 0x1_0000_0000_0000_0000) by (nonlinear_arith)
            requires
                -0x1_0000_0000_0000_0000 <= x - y < 0,
        ;
    } else {
        lemma_small_mod((x - y) as nat, 0x1_0000_0000_0000_0000);
    }
}

proof fn lemma_wrapping_mul64(x: u64, y: u64)
    ensures
        x.wrapping_mul(y) as int == (x * y) % 0x1_0000_0000_0000_0000,
{
    assert(x * y >= 0) by (nonlinear_arith)
        requires
            x >= 0,
            y >= 0,
    ;
}

/// The weighted sum of the first `n` bytes of `data`, as an integer.
pub open spec fn large_lin(data: Seq<u8>, n: int) -> int
    decreases n,
{
    if n <= 0 {
        0
    } else {
        large_lin(data, n - 1) + large_power(n - 1) * data[n - 1]
    }
}

/// The small weighted sum of the first `n` bytes of `data`, as an integer.
pub open spec fn small_lin(data: Seq<u8>, n: int) -> int
    decreases n,
{
    if n <= 0 {
        0
    } else {
        small_lin(data, n - 1) + small_power(n - 1) * data[n - 1]
    }
}

proof fn lemma_large_sum_lin(data: Seq<u8>, n: int)
    requires
        0 <= n <= data.len(),
    ensures
        large_sum(data, n) as int == large_lin(data, n) % 0x1_0000_0000_0000_0000,
    decreases n,
{
    if n > 0 {
        lemma_large_sum_lin(data, n - 1);
        let p = large_power(n - 1);
        lemma_wrapping_mul64(p, data[n - 1] as u64);
        lemma_wrapping_add64(large_sum(data, n - 1), p.wrapping_mul(data[n - 1] as u64));
        lemma_add_mod_noop(large_lin(data, n - 1), p * data[n - 1], 0x1_0000_0000_0000_0000);
    }
}

proof fn lemma_small_sum_lin(data: Seq<u8>, n: int)
    requires
        0 <= n <= data.len(),
    ensures
        small_sum(data, n) as int == small_lin(data, n) % 0x1_0000_0000,
    decreases n,
{
    if n > 0 {
        lemma_small_sum_lin(data, n - 1);
        let p = small_power(n - 1);
        crate::encoder::hash::lemma_wrapping_mul(p, data[n - 1] as u32);
        crate::encoder::hash::lemma_wrapping_add(small_sum(data, n - 1), p.wrapping_mul(data[n - 1] as u32));
        lemma_add_mod_noop(small_lin(data, n - 1), p * data[n - 1], 0x1_0000_0000);
    }
}

/// The large checksum of the window moved forward by one byte, as `update_large_checksum_fwd`
/// computes it.
pub open spec fn large_fwd(checksum: u64, old: u8, new: u8) -> u64 {
    HASH_MULT.wrapping_mul(checksum).wrapping_sub(FIRST_BYTE_WEIGHT.wrapping_mul(old as u64)).wrapping_add(new as u64)
}

/// The large checksum of the window moved back by one byte, as `update_large_checksum_bwd`
/// computes it.
pub open spec fn large_bwd(checksum: u64, old: u8, new: u8) -> u64 {
    checksum.wrapping_sub(old as u64).wrapping_add(FIRST_BYTE_WEIGHT.wrapping_mul(new as u64)).wrapping_mul(MOD_INV)
}

/// The small checksum of the window moved forward by one byte, as
/// `update_small_checksum_fwd` computes it.
pub open spec fn small_fwd(checksum: u32, old: u8, new: u8) -> u32 {
    SMALL_HASH_MULT.wrapping_mul(checksum).wrapping_sub(SMALL_FIRST_BYTE_WEIGHT.wrapping_mul(old as u32)).wrapping_add(new as u32)
}

proof fn lemma_large_lin9(d: Seq<u8>)
    requires
        d.len() >= 9,
    ensures
        large_lin(d, 9) == 12309708155212419425 * d[0] + 10962798122732597373 * d[1] + 17101839937587700905 * d[2]
            + 4214492644603347877 * d[3] + 1752871083341145137 * d[4] + 13959273915025570317 * d[5]
            + 12787978306174927353 * d[6] + 1181783497276652981 * d[7] + d[8],
{
    reveal_with_fuel(large_lin, 10);
}

proof fn lemma_small_lin4(d: Seq<u8>)
    requires
        d.len() >= 4,
    ensures
        small_lin(d, 4) == 1143961941 * d[0] + 1940812585 * d[1] + 3141592653 * d[2] + d[3],
{
    reveal_with_fuel(small_lin, 5);
}

/// Rolling a checksum `h` of `l` modulo `big`: multiply by `mult`, take away `first` times
/// `old`, add `new`.
proof fn lemma_roll_mod(h: int, l: int, mult: int, first: int, old: int, new: int, big: int, a: int, b: int, c: int, r: int)
    requires
        big > 0,
        0 <= new < big,
        h == l % big,
        a == (mult * h) % big,
        b == (first * old) % big,
        c == (a - b) % big,
        r == (c + new) % big,
    ensures
        r == (mult * l - first * old + new) % big,
{
    lemma_mul_mod_noop_right(mult, l, big);
    lemma_sub_mod_noop(mult * l, first * old, big);
    lemma_mod_twice(first * old, big);
    lemma_mod_twice(mult * l, big);
    lemma_add_mod_noop(mult * l - first * old, new, big);
    lemma_small_mod(new as nat, big as nat);
    lemma_mod_twice(mult * l - first * old, big);
}

/// Moving the large window forward: the checksum of the first 9 bytes of `s`, rolled with
/// the byte that leaves and the one that enters, is the checksum of the 9 bytes after the first.
pub proof fn lemma_large_fwd(s: Seq<u8>)
    requires
        s.len() >= 10,
    ensures
        large_fwd(large_checksum(s), s[0], s[9]) == large_checksum(s.drop_first()),
{
    let big: int = 0x1_0000_0000_0000_0000;
    let t = s.drop_first();
    lemma_large_sum_lin(s, 9);
    lemma_large_sum_lin(t, 9);
    let l = large_lin(s, 9);
    let lt = large_lin(t, 9);
    let h = large_checksum(s);
    let a = HASH_MULT.wrapping_mul(h);
    let b = FIRST_BYTE_WEIGHT.wrapping_mul(s[0] as u64);
    let c = a.wrapping_sub(b);
    lemma_wrapping_mul64(HASH_MULT, h);
    lemma_wrapping_mul64(FIRST_BYTE_WEIGHT, s[0] as u64);
    lemma_wrapping_sub64(a, b);
    lemma_wrapping_add64(c, s[9] as u64);
    lemma_roll_mod(h as int, l, HASH_MULT as int, FIRST_BYTE_WEIGHT as int, s[0] as int, s[9] as int, big, a as int, b as int, c as int,
        large_fwd(h, s[0], s[9]) as int);
    let k = 788616673814809152 * s[0] + 702327405511380043 * s[1] + 1095622735944623577 * s[2] + 269999835032377952 * s[3]
        + 112297005415625220 * s[4] + 894295463786105365 * s[5] + 819256865351539461 * s[6] + 75710500934736763 * s[7];
    assert(HASH_MULT * l - FIRST_BYTE_WEIGHT * s[0] + s[9] == big * k + lt) by {
        lemma_large_lin9(s);
        lemma_large_lin9(t);
        assert forall|i: int| 0 <= i < 9 implies t[i] == s[i + 1] by {}
    }
    lemma_mod_multiples_vanish(k, lt, big);
}

/// Moving the large window back: the checksum of the 9 bytes after the first of `s`, rolled
/// with the byte that leaves and the one that enters, is the checksum of the first 9 bytes.
pub proof fn lemma_large_bwd(s: Seq<u8>)
    requires
        s.len() >= 10,
    ensures
        large_bwd(large_checksum(s.drop_first()), s[9], s[0]) == large_checksum(s),
{
    let big: int = 0x1_0000_0000_0000_0000;
    let t = s.drop_first();
    lemma_large_sum_lin(s, 9);
    lemma_large_sum_lin(t, 9);
    let l = large_lin(s, 9);
    let lt = large_lin(t, 9);
    let h = large_checksum(t);
    let x = h.wrapping_sub(s[9] as u64);
    let f = FIRST_BYTE_WEIGHT.wrapping_mul(s[0] as u64);
    let y = x.wrapping_add(f);
    assert(y as int == (lt - s[9] + FIRST_BYTE_WEIGHT * s[0]) % big) by {
        lemma_wrapping_sub64(h, s[9] as u64);
        lemma_small_mod(s[9] as nat, big as nat);
        lemma_sub_mod_noop(lt, s[9] as int, big);
        lemma_mod_twice(lt, big);
        lemma_wrapping_mul64(FIRST_BYTE_WEIGHT, s[0] as u64);
        lemma_wrapping_add64(x, f);
        lemma_add_mod_noop(lt - s[9], FIRST_BYTE_WEIGHT * s[0], big);
        lemma_mod_twice(lt - s[9], big);
        lemma_mod_twice(FIRST_BYTE_WEIGHT * s[0], big);
    }
    assert(y.wrapping_mul(MOD_INV) as int == ((lt - s[9] + FIRST_BYTE_WEIGHT * s[0]) * MOD_INV) % big) by {
        lemma_wrapping_mul64(y, MOD_INV);
        lemma_mul_mod_noop_left(lt - s[9] + FIRST_BYTE_WEIGHT * s[0], MOD_INV as int, big);
    }
    let k = 1974437704519928237 * s[0] + 9019274287458328922 * s[1] + 8032398654804039552 * s[2]
        + 12530450216400844673 * s[3] + 3087942026315025161 * s[4] + 1284321682680477896 * s[5]
        + 10227904569781840020 * s[6] + 9369700928012629186 * s[7] + 865888075974938893 * s[8];
    assert((lt - s[9] + FIRST_BYTE_WEIGHT * s[0]) * MOD_INV == big * k + l) by {
        lemma_large_lin9(s);
        lemma_large_lin9(t);
        assert forall|i: int| 0 <= i < 9 implies t[i] == s[i + 1] by {}
    }
    lemma_mod_multiples_vanish(k, l, big);
}

/// Moving the small window forward: the checksum of the first 4 bytes of `s`, rolled with
/// the byte that leaves and the one that enters, is the checksum of the 4 bytes after the first.
pub proof fn lemma_small_fwd(s: Seq<u8>)
    requires
        s.len() >= 5,
    ensures
        small_fwd(small_checksum(s), s[0], s[4]) == small_checksum(s.drop_first()),
{
    let big: int = 0x1_0000_0000;
    let t = s.drop_first();
    lemma_small_sum_lin(s, 4);
    lemma_small_sum_lin(t, 4);
    let l = small_lin(s, 4);
    let lt = small_lin(t, 4);
    let h = small_checksum(s);
    let a = SMALL_HASH_MULT.wrapping_mul(h);
    let b = SMALL_FIRST_BYTE_WEIGHT.wrapping_mul(s[0] as u32);
    let c = a.wrapping_sub(b);
    crate::encoder::hash::lemma_wrapping_mul(SMALL_HASH_MULT, h);
    crate::encoder::hash::lemma_wrapping_mul(SMALL_FIRST_BYTE_WEIGHT, s[0] as u32);
    crate::encoder::hash::lemma_wrapping_sub(a, b);
    crate::encoder::hash::lemma_wrapping_add(c, s[4] as u32);
    lemma_roll_mod(h as int, l, SMALL_HASH_MULT as int, SMALL_FIRST_BYTE_WEIGHT as int, s[0] as int, s[4] as int, big, a as int, b as int,
        c as int, small_fwd(h, s[0], s[4]) as int);
    let k = 836761302 * s[0] + 1419624909 * s[1] + 2297946344 * s[2];
    assert(SMALL_HASH_MULT * l - SMALL_FIRST_BYTE_WEIGHT * s[0] + s[4] == big * k + lt) by {
        lemma_small_lin4(s);
        lemma_small_lin4(t);
        assert forall|i: int| 0 <= i < 4 implies t[i] == s[i + 1] by {}
    }
    lemma_mod_multiples_vanish(k, lt, big);
}

} // verus!
