//! Fixed size hash tables keyed by precomputed hashes, holding positions, and a
//! chain list holding the positions that a table slot held before.
use vstd::prelude::*;

verus! {

/// An offset value to distinguish between empty bucket positions, and real offsets.
pub const BUCKET_VALUE_OFFSET: usize = 1;

/// One slot: a hash and the position stored for it (plus one; 0 means empty).
#[derive(Clone, Copy, Debug)]
pub struct BucketValue {
    hash: u64,
    value: usize,
}

impl BucketValue {
    /// The stored (hash, position), if any.
    pub closed spec fn entry(&self) -> Option<(u64, usize)> {
        if self.value == 0 {
            None
        } else {
            Some((self.hash, (self.value - BUCKET_VALUE_OFFSET) as usize))
        }
    }

    /// An empty slot.
    pub fn empty() -> (r: Self)
        ensures
            r.entry() is None,
    {
        BucketValue { hash: 0, value: 0 }
    }

    /// The stored position, if the slot holds `hash`.
    pub fn get(&self, hash: u64) -> (r: Option<usize>)
        ensures
            r == (match self.entry() {
                Some((h, v)) => if h == hash { Some(v) } else { None },
                None => None,
            }),
    {
        if self.value == 0 {
            return None;
        }
        if self.hash == hash {
            Some(self.value - BUCKET_VALUE_OFFSET)
        } else {
            None
        }
    }

    /// Stores `value` for `hash`. Returns Ok(None) if the slot was empty, Ok(Some(old)) if it
    /// held the same hash, Err((old_hash, old_value)) if it held another hash.
    pub fn set(&mut self, hash: u64, value: usize) -> (r: Result<Option<usize>, (u64, usize)>)
        requires
            value < usize::MAX,
        ensures
            final(self).entry() == Some((hash, value)),
            r == (match old(self).entry() {
                None => Ok(None),
                Some((h, v)) => if h == hash { Ok(Some(v)) } else { Err((h, v)) },
            }),
    {
        if self.value == 0 {
            self.hash = hash;
            self.value = value + BUCKET_VALUE_OFFSET;
            return Ok(None);
        }
        if self.hash == hash {
            let old = self.value;
            self.value = value + BUCKET_VALUE_OFFSET;
            return Ok(Some(old - BUCKET_VALUE_OFFSET));
        }
        let old = (self.hash, self.value - BUCKET_VALUE_OFFSET);
        self.hash = hash;
        self.value = value + BUCKET_VALUE_OFFSET;
        Err(old)
    }
}

/// The slot of `hash` in a table of `1 << bits` slots.
pub open spec fn bucket_idx(hash: u64, shift: u64, mask: u64) -> u64 {
    (hash >> shift) ^ (hash & mask)
}

proof fn lemma_bucket_idx(h: u64, bits: u64, base: u64)
    requires
        2 <= bits <= 30,
        base == 64 || (base == 32 && h < 0x1_0000_0000),
    ensures
        ((h >> (base - bits) as u64) ^ (h & ((1u64 << bits) - 1) as u64)) < (1u64 << bits),
{
    assert(((h >> (base - bits) as u64) ^ (h & ((1u64 << bits) - 1) as u64)) < (1u64 << bits)) by (bit_vector)
        requires
            2 <= bits <= 30,
            base == 64 || (base == 32 && h < 0x1_0000_0000),
    ;
}

proof fn lemma_shl_double(k: u64)
    requires
        k < 40,
    ensures
        (1u64 << (k + 1) as u64) == 2 * (1u64 << k),
        (1u64 << k) >= 1,
{
    assert((1u64 << (k + 1) as u64) == 2 * (1u64 << k) && (1u64 << k) >= 1) by (bit_vector)
        requires
            k < 40,
    ;
}

/// A basic hash table implementation.
/// This is effectively the innards of a HashMap<K, usize> with a fixed size table.
/// The caller is responsible for hashing K to a u64 value.
pub struct BasicHashTable {
    bits: u64,
    shift_amount: u64,
    mod_mask: u64,
    hash_32_bit: bool,
    buckets: Vec<BucketValue>,
}

/// Number of bits of a table sized for `slots`: the bits of the smallest power of two above
/// `slots` (at least 3), less one.
/// The slot of `hash` in a table of `1 << bits` slots (reading hashes as 32 bit values when
/// `is32`): the high bits of the hash folded onto its low bits.
pub open spec fn slot_for(bits: u64, is32: bool, hash: u64) -> int {
    bucket_idx(hash, ((if is32 { 32u64 } else { 64u64 }) - bits) as u64, ((1u64 << bits) - 1) as u64) as int
}

pub open spec fn table_bits_ok(slots: int, bits: int) -> bool {
    &&& 2 <= bits <= 30
    &&& (1u64 << (bits + 1) as u64) >= slots + 1
    &&& (bits == 2 || (1u64 << bits as u64) < slots + 1)
}

/// Determines the number of bits to use for the hash table size.
fn determine_hash_table_size_bits(slots: usize) -> (r: u64)
    requires
        slots <= 0x4000_0000,
    ensures
        table_bits_ok(slots as int, r as int),
{
    let mut k: u64 = 0;
    let mut p: u64 = 1;
    proof {
        assert((1u64 << 0u64) == 1) by (bit_vector);
    }
    while p < slots as u64 + 1
        invariant
            k <= 31,
            p == (1u64 << k),
            slots <= 0x4000_0000,
            k > 0 ==> (1u64 << (k - 1) as u64) < slots + 1,
        decreases 32 - k,
    {
        proof {
            lemma_shl_double(k);
            if k >= 31 {
                assert((1u64 << 31u64) == 0x8000_0000) by (bit_vector);
                lemma_shl_double(30);
                assert(false);
            }
        }
        p = p * 2;
        k = k + 1;
    }
    proof {
        if k > 0 {
            lemma_shl_double((k - 1) as u64);
        }
        lemma_shl_double(k);
        assert((1u64 << 3u64) == 8) by (bit_vector);
        assert((1u64 << 2u64) == 4) by (bit_vector);
        assert((1u64 << 1u64) == 2) by (bit_vector);
        assert((1u64 << 0u64) == 1) by (bit_vector);
    }
    if k < 3 {
        2
    } else {
        k - 1
    }
}

impl BasicHashTable {
    /// The stored (hash, position) of each slot.
    pub closed spec fn slots(&self) -> Seq<Option<(u64, usize)>> {
        self.buckets@.map_values(|b: BucketValue| b.entry())
    }

    /// The table holds `1 << size_bits()` slots.
    pub closed spec fn size_bits(&self) -> u64 {
        self.bits
    }

    /// The slot that `hash` goes to.
    pub closed spec fn slot_of(&self, hash: u64) -> int {
        bucket_idx(hash, self.shift_amount, self.mod_mask) as int
    }

    /// The table reads hashes as 32 bit values.
    pub closed spec fn hash_32_bit_spec(&self) -> bool {
        self.hash_32_bit
    }

    /// The position stored for `hash`: the one in its slot, if the slot holds that hash.
    pub open spec fn lookup(&self, hash: u64) -> Option<usize> {
        match self.slots()[self.slot_of(hash)] {
            Some((h, v)) => if h == hash { Some(v) } else { None },
            None => None,
        }
    }

    /// Hashes this table takes: any, or those below 2^32 for a table of 32 bit hashes.
    pub open spec fn accepts(&self, hash: u64) -> bool {
        !self.hash_32_bit_spec() || hash < 0x1_0000_0000
    }

    pub closed spec fn wf(&self) -> bool {
        &&& 2 <= self.bits <= 30
        &&& self.buckets@.len() == (1u64 << self.bits)
        &&& self.mod_mask == (1u64 << self.bits) - 1
        &&& self.shift_amount == (if self.hash_32_bit { 32u64 } else { 64u64 }) - self.bits
    }

    /// Creates a new BasicHashTable with the given number of slots.
    /// min_capacity will be rounded up to the next power of 2.
    /// If interpret_hash_as_32_bit is true, the hash will be interpreted as a 32 bit value.
    pub fn new(min_capacity: usize, interpret_hash_as_32_bit: bool) -> (r: Self)
        requires
            min_capacity <= 0x4000_0000,
        ensures
            r.wf(),
            table_bits_ok(min_capacity as int, r.size_bits() as int),
            forall|i: int| 0 <= i < r.slots().len() ==> r.slots()[i] is None,
            r.slots().len() == (1u64 << r.size_bits()),
            r.hash_32_bit_spec() == interpret_hash_as_32_bit,
            forall|h: u64| #[trigger] r.slot_of(h) == slot_for(r.size_bits(), interpret_hash_as_32_bit, h),
    {
        let num_bits = determine_hash_table_size_bits(min_capacity);
        let table_size: u64 = 1u64 << num_bits;
        proof {
            assert((1u64 << num_bits) <= 0x4000_0000) by (bit_vector)
                requires 2 <= num_bits <= 30;
            assert((1u64 << num_bits) >= 4) by (bit_vector)
                requires 2 <= num_bits <= 30;
        }
        let mod_mask = table_size - 1;
        let base: u64 = if interpret_hash_as_32_bit { 32 } else { 64 };
        let shift_amount = base - num_bits;
        let mut buckets: Vec<BucketValue> = Vec::new();
        let n = table_size as usize;
        let mut i: usize = 0;
        while i < n
            invariant
                i <= n,
                buckets@.len() == i,
                forall|j: int| 0 <= j < i ==> (#[trigger] buckets@[j]).entry() is None,
            decreases n - i,
        {
            buckets.push(BucketValue::empty());
            i = i + 1;
        }
        BasicHashTable { bits: num_bits, shift_amount, mod_mask, hash_32_bit: interpret_hash_as_32_bit, buckets }
    }

    fn bucket_index(&self, hash: u64) -> (r: usize)
        requires
            self.wf(),
            self.accepts(hash),
        ensures
            r == self.slot_of(hash),
            r < self.buckets@.len(),
    {
        let v = (hash >> self.shift_amount) ^ (hash & self.mod_mask);
        proof {
            let base: u64 = if self.hash_32_bit { 32u64 } else { 64u64 };
            lemma_bucket_idx(hash, self.bits, base);
            assert(self.shift_amount == (base - self.bits) as u64);
            assert(self.mod_mask == ((1u64 << self.bits) - 1) as u64);
            assert(v < (1u64 << self.bits));
            assert(v < self.buckets@.len());
            assert(self.buckets@.len() == self.buckets.len());
        }
        v as usize
    }

    /// The position stored for `hash`, if its slot holds that hash.
    pub fn get(&self, hash: u64) -> (r: Option<usize>)
        requires
            self.wf(),
            self.accepts(hash),
        ensures
            0 <= self.slot_of(hash) < self.slots().len(),
            r == self.lookup(hash),
    {
        let idx = self.bucket_index(hash);
        self.buckets[idx].get(hash)
    }

    /// Stores `position` for `hash` in its slot; the result tells what the slot held
    /// (see `BucketValue::set`).
    pub fn insert(&mut self, hash: u64, position: usize) -> (r: Result<Option<usize>, (u64, usize)>)
        requires
            old(self).wf(),
            old(self).accepts(hash),
            position < usize::MAX,
        ensures
            final(self).wf(),
            final(self).hash_32_bit_spec() == old(self).hash_32_bit_spec(),
            final(self).size_bits() == old(self).size_bits(),
            forall|h: u64| final(self).slot_of(h) == old(self).slot_of(h),
            0 <= old(self).slot_of(hash) < old(self).slots().len(),
            final(self).slots() == old(self).slots().update(old(self).slot_of(hash), Some((hash, position))),
            r == (match old(self).slots()[old(self).slot_of(hash)] {
                None => Ok(None),
                Some((h, v)) => if h == hash { Ok(Some(v)) } else { Err((h, v)) },
            }),
            r matches Ok(Some(v)) ==> v < usize::MAX,
            r matches Err((h, v)) ==> v < usize::MAX,
            final(self).lookup(hash) == Some(position),
            forall|h: u64| old(self).accepts(h) && old(self).slot_of(h) != old(self).slot_of(hash) ==> #[trigger] final(self).lookup(h)
                == old(self).lookup(h),
    {
        let idx = self.bucket_index(hash);
        let mut b = self.buckets[idx];
        let r = b.set(hash, position);
        self.buckets.set(idx, b);
        proof {
            assert(self.slots() =~= old(self).slots().update(idx as int, Some((hash, position))));
            assert forall|h: u64| old(self).accepts(h) && old(self).slot_of(h) != old(self).slot_of(hash) implies #[trigger] self.lookup(h)
                == old(self).lookup(h) by {
                let base: u64 = if self.hash_32_bit { 32u64 } else { 64u64 };
                lemma_bucket_idx(h, self.bits, base);
            }
        }
        r
    }

    /// Inserts a new position into the hash table conditional on if the old position is old enough.
    /// * hash: The hash of the key
    /// * position: The new position to insert
    /// * old_lt: Will only insert if the to-be-evicted position is less than this value.
    pub fn insert_cond(&mut self, hash: u64, position: usize, old_lt: usize) -> (r: Result<Option<usize>, (u64, usize)>)
        requires
            old(self).wf(),
            old(self).accepts(hash),
            position < usize::MAX,
        ensures
            final(self).wf(),
            final(self).hash_32_bit_spec() == old(self).hash_32_bit_spec(),
            final(self).size_bits() == old(self).size_bits(),
            forall|h: u64| final(self).slot_of(h) == old(self).slot_of(h),
            0 <= old(self).slot_of(hash) < old(self).slots().len(),
            match old(self).slots()[old(self).slot_of(hash)] {
                Some((h, v)) if v >= old_lt => final(self).slots() == old(self).slots() && r == Err::<Option<usize>, (u64, usize)>((hash, position)),
                prev => final(self).slots() == old(self).slots().update(old(self).slot_of(hash), Some((hash, position)))
                    && r == (match prev {
                        None => Ok(None),
                        Some((h, v)) => if h == hash { Ok(Some(v)) } else { Err((h, v)) },
                    }),
            },
    {
        let idx = self.bucket_index(hash);
        let mut b = self.buckets[idx];
        let current = b.get_entry();
        let can_set = match current {
            None => true,
            Some((_, v)) => v < old_lt,
        };
        if can_set {
            let r = b.set(hash, position);
            self.buckets.set(idx, b);
            proof {
                assert(self.slots() =~= old(self).slots().update(idx as int, Some((hash, position))));
            }
            return r;
        }
        Err((hash, position))
    }
}

impl BucketValue {
    /// The stored (hash, position), if any.
    pub fn get_entry(&self) -> (r: Option<(u64, usize)>)
        ensures
            r == self.entry(),
    {
        if self.value == 0 {
            None
        } else {
            Some((self.hash, self.value - BUCKET_VALUE_OFFSET))
        }
    }
}

/// This is a chain list to store overflow values from the hash table.
/// It is an in-memory linked list structure: the slot of a position holds the position
/// that the table held before it (for the hash it stores).
pub struct ChainList {
    positions: Vec<BucketValue>,
    mod_mask: usize,
}

impl ChainList {
    /// The stored (hash, previous position) of each slot.
    pub closed spec fn slots(&self) -> Seq<Option<(u64, usize)>> {
        self.positions@.map_values(|b: BucketValue| b.entry())
    }

    /// The slot of position `pos`.
    pub closed spec fn slot_of(&self, pos: usize) -> int {
        (pos & self.mod_mask) as int
    }

    pub closed spec fn wf(&self) -> bool {
        &&& self.positions@.len() == 0 ==> self.mod_mask == 0
        &&& self.positions@.len() > 0 ==> self.mod_mask == self.positions@.len() - 1
            && forall|p: usize| (p & self.mod_mask) <= self.mod_mask
    }

    /// Creates a new list with the given capacity, which must be 0 or a power of 2.
    /// Use 0 to short-circuit all functions and not allocate any memory.
    pub fn new(capacity: usize) -> (r: Self)
        requires
            capacity == 0 || (capacity & (capacity - 1) as usize) == 0,
        ensures
            r.wf(),
            r.slots().len() == capacity,
            forall|i: int| 0 <= i < r.slots().len() ==> r.slots()[i] is None,
            forall|p: usize| #[trigger] r.slot_of(p) == (p & (if capacity > 0 { (capacity - 1) as usize } else { 0usize })) as int,
    {
        if capacity == 0 {
            return ChainList { positions: Vec::new(), mod_mask: 0 };
        }
        let mut positions: Vec<BucketValue> = Vec::new();
        let mut i: usize = 0;
        while i < capacity
            invariant
                i <= capacity,
                positions@.len() == i,
                forall|j: int| 0 <= j < i ==> (#[trigger] positions@[j]).entry() is None,
            decreases capacity - i,
        {
            positions.push(BucketValue::empty());
            i = i + 1;
        }
        let mod_mask = capacity - 1;
        proof {
            assert forall|p: usize| (p & mod_mask) <= mod_mask by {
                assert((p & mod_mask) <= mod_mask) by (bit_vector);
            }
            assert(positions@.map_values(|b: BucketValue| b.entry()).len() == capacity);
        }
        ChainList { positions, mod_mask }
    }

    /// One call of the walk back from `last` for `hash`, bounded by `bound`: follows the
    /// previous positions stored in the slots, each strictly before the one it was found at,
    /// and returns the first that is stored for `hash`, with the position the walk stopped
    /// at. The walk ends (None) at an empty slot, at a position that does not go back, or at
    /// one `capacity` or more behind `bound` (it may have been overwritten since).
    pub open spec fn walk(&self, last: usize, bound: usize, hash: u64) -> (Option<usize>, usize)
        decreases last,
    {
        if self.slots().len() == 0 {
            (None, last)
        } else {
            match self.slots()[self.slot_of(last)] {
                None => (None, last),
                Some((h, prev)) => if prev >= last {
                    (None, last)
                } else if bound - prev >= self.slots().len() {
                    (None, prev)
                } else if h == hash {
                    (Some(prev), prev)
                } else {
                    self.walk(prev, bound, hash)
                },
            }
        }
    }

    /// A walk only goes back, and a position it finds is where it stops.
    pub proof fn lemma_walk_back(&self, last: usize, bound: usize, hash: u64)
        ensures
            self.walk(last, bound, hash).1 <= last,
            self.walk(last, bound, hash).0 matches Some(p) ==> p == self.walk(last, bound, hash).1 && p < last,
        decreases last,
    {
        if self.slots().len() > 0 {
            if let Some((h, prev)) = self.slots()[self.slot_of(last)] {
                if prev < last && bound - prev < self.slots().len() && h != hash {
                    self.lemma_walk_back(prev, bound, hash);
                }
            }
        }
    }

    /// Number of slots.
    pub fn capacity(&self) -> (r: usize)
        ensures
            r == self.slots().len(),
    {
        self.positions.len()
    }

    /// The slot of a position, if it holds a previous position.
    fn get_prev_pos(&self, last_pos: usize) -> (r: Option<BucketValue>)
        requires
            self.wf(),
        ensures
            match r {
                Some(b) => self.slots().len() > 0 && b.entry() is Some && b.entry() == self.slots()[self.slot_of(last_pos)],
                None => self.slots().len() == 0 || self.slots()[self.slot_of(last_pos)] is None,
            },
    {
        if self.positions.len() == 0 {
            return None;
        }
        let b = self.positions[last_pos & self.mod_mask];
        if b.get_entry().is_none() {
            return None;
        }
        Some(b)
    }

    /// Inserts a new position into the chain.
    /// key_position: the position whose slot records `position` (the previous one) for `hash`.
    pub fn insert(&mut self, hash: u64, key_position: usize, position: usize)
        requires
            old(self).wf(),
            position < usize::MAX,
        ensures
            final(self).wf(),
            forall|p: usize| final(self).slot_of(p) == old(self).slot_of(p),
            old(self).slots().len() == 0 ==> final(self).slots() == old(self).slots(),
            old(self).slots().len() > 0 ==> final(self).slots() == old(self).slots().update(old(self).slot_of(key_position), Some((hash, position))),
            final(self).slots().len() == old(self).slots().len(),
    {
        if self.positions.len() == 0 {
            return;
        }
        let idx = key_position & self.mod_mask;
        let mut b = self.positions[idx];
        let _ = b.set(hash, position);
        self.positions.set(idx, b);
        proof {
            assert(self.slots() =~= old(self).slots().update(idx as int, Some((hash, position))));
        }
    }
}

/// Walks the chain of earlier positions stored for a hash, newest first.
pub struct PrevPositionIterator<'a> {
    list: &'a ChainList,
    last_pos: usize,
    cur_out_pos: usize,
    hash_value: u64,
}

impl<'a> PrevPositionIterator<'a> {
    /// The position the walk is at.
    pub closed spec fn at(&self) -> usize {
        self.last_pos
    }

    /// The position the walk is bounded by.
    pub closed spec fn bound(&self) -> usize {
        self.cur_out_pos
    }

    /// The list walked.
    pub closed spec fn chain(&self) -> ChainList {
        *self.list
    }

    /// The hash whose positions the walk returns.
    pub closed spec fn hash(&self) -> u64 {
        self.hash_value
    }

    pub fn new(list: &'a ChainList, last_pos: usize, cur_out_pos: usize, hash_value: u64) -> (r: Self)
        requires
            list.wf(),
            last_pos <= cur_out_pos,
        ensures
            r.at() == last_pos,
            r.bound() == cur_out_pos,
            r.wf(),
            r.at() <= r.bound(),
            r.chain() == *list,
            r.hash() == (if list.slots().len() == 0 { 0 } else { hash_value }),
    {
        if list.positions.len() == 0 {
            return PrevPositionIterator { list, last_pos, cur_out_pos, hash_value: 0 };
        }
        PrevPositionIterator { list, last_pos, cur_out_pos, hash_value }
    }

    pub closed spec fn wf(&self) -> bool {
        self.list.wf() && self.last_pos <= self.cur_out_pos
    }

    /// The next earlier position in the chain for the hash: positions only move back, and
    /// no further back than the list's capacity from the bound. None at the chain's end.
    pub fn next(&mut self) -> (r: Option<usize>)
        requires
            old(self).wf(),
        ensures
            final(self).wf(),
            final(self).bound() == old(self).bound(),
            final(self).at() <= old(self).at(),
            final(self).at() <= final(self).bound(),
            final(self).chain() == old(self).chain(),
            final(self).hash() == old(self).hash(),
            (r, final(self).at()) == old(self).chain().walk(old(self).at(), old(self).bound(), old(self).hash()),
            match r {
                Some(p) => p == final(self).at() && p < old(self).at(),
                None => true,
            },
    {
        proof {
            self.list.lemma_walk_back(self.last_pos, self.cur_out_pos, self.hash_value);
        }
        loop
            invariant
                self.wf(),
                self.cur_out_pos == old(self).cur_out_pos,
                self.list == old(self).list,
                self.hash_value == old(self).hash_value,
                self.last_pos <= old(self).last_pos,
                self.list.walk(self.last_pos, self.cur_out_pos, self.hash_value)
                    == old(self).chain().walk(old(self).at(), old(self).bound(), old(self).hash()),
            decreases self.last_pos,
        {
            let populated_bucket = match self.list.get_prev_pos(self.last_pos) {
                Some(b) => b,
                None => return None,
            };
            let (bucket_hash, prev_pos) = match populated_bucket.get_entry() {
                Some(e) => e,
                None => return None,
            };
            if prev_pos > self.last_pos {
                return None;
            }
            if prev_pos == self.last_pos {
                return None;
            }
            self.last_pos = prev_pos;
            let diff_pos = self.cur_out_pos - self.last_pos;
            if diff_pos >= self.list.capacity() {
                return None;
            }
            if bucket_hash == self.hash_value {
                return Some(prev_pos);
            }
        }
    }
}

} // verus!
