//! Count-Min Sketch: a probabilistic data structure for approximate counting.
//!
//! A sketch keeps `depth` rows of `width` counters. Each row has its own
//! seeded hash function; incrementing a key raises the key's counter in every
//! row, and the estimate is the smallest of those counters. Collisions can
//! only raise a counter, so the estimate never falls below the true count.

use vstd::prelude::*;
use vstd::bytes::{spec_u16_to_le_bytes, spec_u32_to_le_bytes, spec_u64_to_le_bytes};
use vstd::utf8::encode_utf8;
use vstd::wrapping::u64_specs::wrapping_mul;

verus! {

/// The FNV-1a prime the hasher multiplies by after each byte.
pub open spec fn fnv_prime() -> u64 {
    0x100000001b3u64
}

/// The hasher state after one more byte.
pub open spec fn fnv_step(s: u64, b: u8) -> u64 {
    wrapping_mul(s ^ (b as u64), fnv_prime())
}

/// The hasher state after `bytes`, from state `s`.
pub open spec fn fnv_feed(s: u64, bytes: Seq<u8>) -> u64
    decreases bytes.len(),
{
    if bytes.len() == 0 {
        s
    } else {
        fnv_step(fnv_feed(s, bytes.drop_last()), bytes.last())
    }
}

/// The final avalanche mix applied to the hasher state.
pub open spec fn avalanche(h: u64) -> u64 {
    let h1 = h ^ (h >> 33u64);
    let h2 = wrapping_mul(h1, 0xff51afd7ed558ccdu64);
    let h3 = h2 ^ (h2 >> 33u64);
    let h4 = wrapping_mul(h3, 0xc4ceb9fe1a85ec53u64);
    h4 ^ (h4 >> 33u64)
}

/// The seed of row `i`: a fixed odd constant times `i + 1`, wrapping.
pub open spec fn seed_of(i: int) -> u64 {
    wrapping_mul(0x517cc1b727220a95u64, (i + 1) as u64)
}

/// The column a key with bytes `key` falls into, in the row with seed `seed`.
pub open spec fn bucket(seed: u64, key: Seq<u8>, width: usize) -> int {
    ((avalanche(fnv_feed(seed, key)) as usize) % width) as int
}

/// Feeding two byte strings one after the other is feeding their concatenation.
pub proof fn lemma_fnv_feed_append(s: u64, a: Seq<u8>, b: Seq<u8>)
    ensures
        fnv_feed(fnv_feed(s, a), b) == fnv_feed(s, a + b),
    decreases b.len(),
{
    if b.len() == 0 {
        assert(a + b =~= a);
    } else {
        lemma_fnv_feed_append(s, a, b.drop_last());
        assert((a + b).drop_last() =~= a + b.drop_last());
        assert((a + b).last() == b.last());
    }
}

/// Feeding bytes then one more byte is feeding the bytes with it appended.
pub proof fn lemma_fnv_feed_push(s: u64, a: Seq<u8>, b: u8)
    ensures
        fnv_step(fnv_feed(s, a), b) == fnv_feed(s, a + seq![b]),
{
    assert((a + seq![b]).drop_last() =~= a);
    assert((a + seq![b]).last() == b);
}

/// A simple hash function seeded with a u64: FNV-1a-like byte mixing and a
/// final avalanche.
pub struct SipLikeHasher {
    state: u64,
}

impl View for SipLikeHasher {
    type V = u64;

    /// The hasher's state.
    closed spec fn view(&self) -> u64 {
        self.state
    }
}

impl SipLikeHasher {
    /// A hasher starting from `seed`.
    pub fn new(seed: u64) -> (h: Self)
        ensures
            h@ == seed,
    {
        SipLikeHasher { state: seed }
    }

    /// The hash of everything written so far.
    pub fn finish(&self) -> (h: u64)
        ensures
            h == avalanche(self@),
    {
        let mut h = self.state;
        h = h ^ (h >> 33u64);
        h = h.wrapping_mul(0xff51afd7ed558ccdu64);
        h = h ^ (h >> 33u64);
        h = h.wrapping_mul(0xc4ceb9fe1a85ec53u64);
        h = h ^ (h >> 33u64);
        h
    }

    /// Mixes one byte into the state.
    pub fn write_byte(&mut self, b: u8)
        ensures
            final(self)@ == fnv_step(old(self)@, b),
    {
        self.state = self.state ^ (b as u64);
        self.state = self.state.wrapping_mul(0x100000001b3u64);
    }

    /// Mixes `bytes` into the state.
    pub fn write(&mut self, bytes: &[u8])
        ensures
            final(self)@ == fnv_feed(old(self)@, bytes@),
    {
        let n = bytes.len();
        let mut i: usize = 0;
        assert(bytes@.take(0) =~= Seq::<u8>::empty());
        while i < n
            invariant
                n == bytes@.len(),
                0 <= i <= n,
                self@ == fnv_feed(old(self)@, bytes@.take(i as int)),
            decreases n - i,
        {
            proof {
                assert(bytes@.take(i + 1).drop_last() =~= bytes@.take(i as int));
                assert(bytes@.take(i + 1).last() == bytes@[i as int]);
            }
            self.state = self.state ^ (bytes[i] as u64);
            self.state = self.state.wrapping_mul(0x100000001b3u64);
            i = i + 1;
        }
        assert(bytes@.take(n as int) =~= bytes@);
    }
}

/// A key the sketch can count, by the bytes it writes into the hasher: those
/// std's `Hash` writes for it (integers in little-endian order).
pub trait SketchKey {
    /// The bytes this key writes into the hasher.
    spec fn key_bytes(&self) -> Seq<u8>;

    /// Writes this key's bytes into the hasher.
    fn write_key(&self, hasher: &mut SipLikeHasher)
        ensures
            final(hasher)@ == fnv_feed(old(hasher)@, self.key_bytes()),
    ;
}

impl<'a> SketchKey for &'a str {
    /// A string's UTF-8 bytes, then the byte 0xff.
    open spec fn key_bytes(&self) -> Seq<u8> {
        encode_utf8((**self)@) + seq![0xffu8]
    }

    fn write_key(&self, hasher: &mut SipLikeHasher) {
        let b = (**self).as_bytes();
        hasher.write(b);
        hasher.write_byte(0xffu8);
        proof {
            lemma_fnv_feed_push(old(hasher)@, b@, 0xffu8);
        }
    }
}

impl SketchKey for String {
    /// A string's UTF-8 bytes, then the byte 0xff.
    open spec fn key_bytes(&self) -> Seq<u8> {
        encode_utf8(self@) + seq![0xffu8]
    }

    fn write_key(&self, hasher: &mut SipLikeHasher) {
        let b = self.as_str().as_bytes();
        hasher.write(b);
        hasher.write_byte(0xffu8);
        proof {
            lemma_fnv_feed_push(old(hasher)@, b@, 0xffu8);
        }
    }
}

impl SketchKey for u8 {
    open spec fn key_bytes(&self) -> Seq<u8> {
        seq![*self]
    }

    fn write_key(&self, hasher: &mut SipLikeHasher) {
        hasher.write_byte(*self);
        proof {
            lemma_fnv_feed_push(old(hasher)@, Seq::empty(), *self);
            assert(Seq::<u8>::empty() + seq![*self] =~= seq![*self]);
        }
    }
}

impl SketchKey for u16 {
    open spec fn key_bytes(&self) -> Seq<u8> {
        spec_u16_to_le_bytes(*self)
    }

    fn write_key(&self, hasher: &mut SipLikeHasher) {
        let v = vstd::bytes::u16_to_le_bytes(*self);
        hasher.write(v.as_slice());
    }
}

impl SketchKey for u32 {
    open spec fn key_bytes(&self) -> Seq<u8> {
        spec_u32_to_le_bytes(*self)
    }

    fn write_key(&self, hasher: &mut SipLikeHasher) {
        let v = vstd::bytes::u32_to_le_bytes(*self);
        hasher.write(v.as_slice());
    }
}

impl SketchKey for u64 {
    open spec fn key_bytes(&self) -> Seq<u8> {
        spec_u64_to_le_bytes(*self)
    }

    fn write_key(&self, hasher: &mut SipLikeHasher) {
        let v = vstd::bytes::u64_to_le_bytes(*self);
        hasher.write(v.as_slice());
    }
}

impl SketchKey for (u16, u16) {
    /// Each part in turn.
    open spec fn key_bytes(&self) -> Seq<u8> {
        spec_u16_to_le_bytes(self.0) + spec_u16_to_le_bytes(self.1)
    }

    fn write_key(&self, hasher: &mut SipLikeHasher) {
        let a = vstd::bytes::u16_to_le_bytes(self.0);
        let b = vstd::bytes::u16_to_le_bytes(self.1);
        hasher.write(a.as_slice());
        hasher.write(b.as_slice());
        proof {
            lemma_fnv_feed_append(old(hasher)@, a@, b@);
        }
    }
}

/// A sketch as plain values.
pub struct SketchView {
    /// Counters, one row of `width` per hash function
    pub counters: Seq<Seq<u32>>,
    /// Number of hash functions (rows)
    pub depth: usize,
    /// Number of buckets per row
    pub width: usize,
    /// Seed of each row's hash function
    pub seeds: Seq<u64>,
}

/// A well-formed sketch: `depth` rows of `width` counters, each row seeded
/// by its index.
pub open spec fn sketch_wf(v: SketchView) -> bool {
    &&& v.counters.len() == v.depth
    &&& v.seeds.len() == v.depth
    &&& forall|i: int| 0 <= i < v.depth ==> (#[trigger] v.counters[i]).len() == v.width
    &&& forall|i: int| 0 <= i < v.depth ==> #[trigger] v.seeds[i] == seed_of(i)
}

/// Whether every row has a bucket to hash into (no row, or a positive width).
pub open spec fn hashable(v: SketchView) -> bool {
    v.depth == 0 || v.width > 0
}

/// The counter a key with bytes `key` reaches in row `i`.
pub open spec fn cell(v: SketchView, key: Seq<u8>, i: int) -> u32 {
    v.counters[i][bucket(v.seeds[i], key, v.width)]
}

/// The smallest of a key's counters over the first `n` rows (`u32::MAX`
/// when there is none).
pub open spec fn row_min(v: SketchView, key: Seq<u8>, n: nat) -> u32
    decreases n,
{
    if n == 0 {
        u32::MAX
    } else {
        let m = row_min(v, key, (n - 1) as nat);
        let c = cell(v, key, n - 1);
        if c < m {
            c
        } else {
            m
        }
    }
}

/// The estimated count of a key: the smallest of its counters.
pub open spec fn estimate_spec(v: SketchView, key: Seq<u8>) -> u32 {
    row_min(v, key, v.depth as nat)
}

/// `a + b`, saturating at `u32::MAX`.
pub open spec fn sat_add(a: u32, b: u32) -> u32 {
    if a + b > u32::MAX {
        u32::MAX
    } else {
        (a + b) as u32
    }
}

/// Row `i` after adding `amount` to a key: the key's counter raised by
/// `amount`, saturating.
pub open spec fn added_row(v: SketchView, key: Seq<u8>, amount: u32, i: int) -> Seq<u32> {
    v.counters[i].update(bucket(v.seeds[i], key, v.width), sat_add(cell(v, key, i), amount))
}

/// A sketch after adding `amount` to a key: its counter in every row rises
/// by `amount`, saturating.
pub open spec fn add_spec(v: SketchView, key: Seq<u8>, amount: u32) -> SketchView {
    SketchView { counters: Seq::new(v.depth as nat, |i: int| added_row(v, key, amount, i)), ..v }
}

/// A sketch with every counter reset to zero.
pub open spec fn clear_spec(v: SketchView) -> SketchView {
    SketchView { counters: Seq::new(v.depth as nat, |i: int| Seq::new(v.width as nat, |j: int| 0u32)), ..v }
}

/// Raises the counter at `idx` by `amount`, saturating.
fn bump_cell(row: &mut Vec<u32>, idx: usize, amount: u32)
    requires
        idx < old(row)@.len(),
    ensures
        final(row)@ == old(row)@.update(idx as int, sat_add(old(row)@[idx as int], amount)),
{
    let c = row[idx];
    row.set(idx, c.saturating_add(amount));
}

/// The column of a key in the row with seed `seed`.
fn bucket_of<K: SketchKey>(seed: u64, width: usize, key: &K) -> (idx: usize)
    requires
        width > 0,
    ensures
        idx == bucket(seed, key.key_bytes(), width),
        idx < width,
{
    let mut hasher = SipLikeHasher::new(seed);
    key.write_key(&mut hasher);
    (hasher.finish() as usize) % width
}

/// Adds `amount` to a key's counter in every row.
fn add_to_rows<K: SketchKey>(counters: &mut Vec<Vec<u32>>, seeds: &Vec<u64>, width: usize, key: &K, amount: u32)
    requires
        old(counters)@.len() == seeds@.len(),
        forall|k: int| 0 <= k < old(counters)@.len() ==> (#[trigger] old(counters)@[k])@.len() == width,
        old(counters)@.len() == 0 || width > 0,
    ensures
        final(counters)@.len() == old(counters)@.len(),
        forall|k: int| 0 <= k < old(counters)@.len() ==> (#[trigger] final(counters)@[k])@ == old(counters)@[k]@.update(
            bucket(seeds@[k], key.key_bytes(), width),
            sat_add(old(counters)@[k]@[bucket(seeds@[k], key.key_bytes(), width)], amount),
        ),
{
    let n = counters.len();
    let ghost c0 = counters@;
    let mut i: usize = 0;
    while i < n
        invariant
            n == c0.len(),
            n == seeds@.len(),
            counters@.len() == n,
            n == 0 || width > 0,
            forall|k: int| 0 <= k < n ==> (#[trigger] c0[k])@.len() == width,
            0 <= i <= n,
            forall|k: int| 0 <= k < i ==> (#[trigger] counters@[k])@ == c0[k]@.update(
                bucket(seeds@[k], key.key_bytes(), width),
                sat_add(c0[k]@[bucket(seeds@[k], key.key_bytes(), width)], amount),
            ),
            forall|k: int| i <= k < n ==> (#[trigger] counters@[k]) == c0[k],
        decreases n - i,
    {
        let idx = bucket_of(seeds[i], width, key);
        bump_cell(&mut counters[i], idx, amount);
        i = i + 1;
    }
}

/// Sets every counter of a row to zero.
fn zero_fill(row: &mut Vec<u32>)
    ensures
        final(row)@ == Seq::new(old(row)@.len(), |j: int| 0u32),
{
    let n = row.len();
    let mut j: usize = 0;
    while j < n
        invariant
            n == row@.len(),
            0 <= j <= n,
            forall|k: int| 0 <= k < j ==> #[trigger] row@[k] == 0,
        decreases n - j,
    {
        row.set(j, 0);
        j = j + 1;
    }
    assert(row@ =~= Seq::new(old(row)@.len(), |j: int| 0u32));
}

/// A Count-Min Sketch for approximate frequency counting.
#[derive(Debug, Clone)]
pub struct CountMinSketch {
    /// 2D array of counters: [depth][width]
    counters: Vec<Vec<u32>>,
    /// Number of hash functions (rows)
    depth: usize,
    /// Number of buckets per row
    width: usize,
    /// Seeds for each hash function
    seeds: Vec<u64>,
}

impl View for CountMinSketch {
    type V = SketchView;

    closed spec fn view(&self) -> SketchView {
        SketchView {
            counters: self.counters@.map_values(|r: Vec<u32>| r@),
            depth: self.depth,
            width: self.width,
            seeds: self.seeds@,
        }
    }
}

impl CountMinSketch {
    /// Whether the sketch is well formed (see [`sketch_wf`]).
    pub open spec fn wf(&self) -> bool {
        sketch_wf(self@)
    }

    /// Create a new Count-Min Sketch.
    ///
    /// - `width`: number of buckets per hash function (higher = more accurate)
    /// - `depth`: number of hash functions (higher = more accurate, but slower)
    ///
    /// Memory usage: `width * depth * 4` bytes.
    ///
    /// Recommended defaults: width=1_048_576 (2^20), depth=4 -> ~16 MB.
    pub fn new(width: usize, depth: usize) -> (s: Self)
        ensures
            s.wf(),
            s@.width == width,
            s@.depth == depth,
            forall|i: int, j: int| 0 <= i < depth && 0 <= j < width ==> #[trigger] s@.counters[i][j] == 0,
    {
        let mut counters: Vec<Vec<u32>> = Vec::new();
        let mut seeds: Vec<u64> = Vec::new();
        let mut i: usize = 0;
        while i < depth
            invariant
                0 <= i <= depth,
                counters@.len() == i,
                seeds@.len() == i,
                forall|k: int| 0 <= k < i ==> (#[trigger] counters@[k])@.len() == width,
                forall|k: int, j: int| 0 <= k < i && 0 <= j < width ==> #[trigger] counters@[k]@[j] == 0,
                forall|k: int| 0 <= k < i ==> #[trigger] seeds@[k] == seed_of(k),
            decreases depth - i,
        {
            let mut row: Vec<u32> = Vec::new();
            let mut j: usize = 0;
            while j < width
                invariant
                    0 <= j <= width,
                    row@.len() == j,
                    forall|k: int| 0 <= k < j ==> #[trigger] row@[k] == 0,
                decreases width - j,
            {
                row.push(0);
                j = j + 1;
            }
            counters.push(row);
            seeds.push(0x517cc1b727220a95u64.wrapping_mul(i as u64 + 1));
            i = i + 1;
        }
        let s = CountMinSketch { counters, depth, width, seeds };
        assert forall|k: int| 0 <= k < depth implies (#[trigger] s@.counters[k]).len() == width by {
            assert(s@.counters[k] == s.counters@[k]@);
        }
        assert forall|k: int, j: int| 0 <= k < depth && 0 <= j < width implies #[trigger] s@.counters[k][j] == 0 by {
            assert(s@.counters[k] == s.counters@[k]@);
        }
        s
    }

    /// Create a sketch with default parameters (~16 MB memory): 2^20
    /// buckets per row, 4 rows.
    pub fn default_size() -> (s: Self)
        ensures
            s.wf(),
            s@.width == 1048576,
            s@.depth == 4,
            forall|i: int, j: int| 0 <= i < 4 && 0 <= j < 1048576 ==> #[trigger] s@.counters[i][j] == 0,
    {
        let width: usize = 1usize << 20usize;
        assert(width == 1048576) by (bit_vector)
            requires
                width == 1usize << 20usize,
        ;
        Self::new(width, 4)
    }

    /// Compute the bucket index for a key using hash function `i`.
    fn hash_index<K: SketchKey>(&self, key: &K, i: usize) -> (idx: usize)
        requires
            i < self@.seeds.len(),
            self@.width > 0,
        ensures
            idx == bucket(self@.seeds[i as int], key.key_bytes(), self@.width),
            idx < self@.width,
    {
        let mut hasher = SipLikeHasher::new(self.seeds[i]);
        key.write_key(&mut hasher);
        (hasher.finish() as usize) % self.width
    }

    /// Increment the count for a key.
    pub fn increment<K: SketchKey>(&mut self, key: &K)
        requires
            old(self).wf(),
            hashable(old(self)@),
        ensures
            final(self).wf(),
            final(self)@ == add_spec(old(self)@, key.key_bytes(), 1),
    {
        self.increment_by(key, 1);
    }

    /// Estimate the count for a key (returns the minimum across all rows).
    pub fn estimate<K: SketchKey>(&self, key: &K) -> (c: u32)
        requires
            self.wf(),
            hashable(self@),
        ensures
            c == estimate_spec(self@, key.key_bytes()),
    {
        let mut min = u32::MAX;
        let mut i: usize = 0;
        while i < self.depth
            invariant
                self.wf(),
                hashable(self@),
                0 <= i <= self@.depth,
                min == row_min(self@, key.key_bytes(), i as nat),
            decreases self@.depth - i,
        {
            let idx = self.hash_index(key, i);
            assert(self@.counters[i as int] == self.counters@[i as int]@);
            let c = self.counters[i][idx];
            if c < min {
                min = c;
            }
            i = i + 1;
        }
        min
    }

    /// Increment by a specific amount.
    pub fn increment_by<K: SketchKey>(&mut self, key: &K, amount: u32)
        requires
            old(self).wf(),
            hashable(old(self)@),
        ensures
            final(self).wf(),
            final(self)@ == add_spec(old(self)@, key.key_bytes(), amount),
    {
        let ghost v0 = self@;
        let ghost kb = key.key_bytes();
        proof {
            assert forall|k: int| 0 <= k < self.counters@.len() implies (#[trigger] self.counters@[k])@.len() == self.width by {
                assert(self@.counters[k] == self.counters@[k]@);
            }
        }
        add_to_rows(&mut self.counters, &self.seeds, self.width, key, amount);
        proof {
            assert(self@.counters =~= add_spec(v0, kb, amount).counters);
            assert forall|k: int| 0 <= k < self@.depth implies (#[trigger] self@.counters[k]).len() == self@.width by {
                assert(self@.counters[k] == added_row(v0, kb, amount, k));
            }
        }
    }

    /// Reset all counters to zero.
    pub fn clear(&mut self)
        requires
            old(self).wf(),
        ensures
            final(self).wf(),
            final(self)@ == clear_spec(old(self)@),
    {
        let ghost v0 = self@;
        let mut i: usize = 0;
        while i < self.depth
            invariant
                self.depth == v0.depth,
                self.width == v0.width,
                self.seeds@ == v0.seeds,
                self.counters@.len() == v0.depth,
                sketch_wf(v0),
                0 <= i <= v0.depth,
                forall|k: int| 0 <= k < i ==> (#[trigger] self.counters@[k])@ == clear_spec(v0).counters[k],
                forall|k: int| i <= k < v0.depth ==> (#[trigger] self.counters@[k])@ == v0.counters[k],
            decreases v0.depth - i,
        {
            assert(self.counters@[i as int]@ == v0.counters[i as int]);
            zero_fill(&mut self.counters[i]);
            assert(self.counters@[i as int]@ =~= clear_spec(v0).counters[i as int]);
            i = i + 1;
        }
        proof {
            assert(self@.counters =~= clear_spec(v0).counters);
        }
    }

    /// Memory usage in bytes.
    pub fn memory_bytes(&self) -> (n: usize)
        requires
            self@.width * self@.depth * 4 <= usize::MAX,
        ensures
            n == self@.width * self@.depth * 4,
    {
        proof {
            vstd::arithmetic::mul::lemma_mul_nonnegative(self.width as int, self.depth as int);
        }
        self.width * self.depth * 4
    }

    /// Number of buckets per row.
    pub fn width(&self) -> (n: usize)
        ensures
            n == self@.width,
    {
        self.width
    }

    /// Number of rows (hash functions).
    pub fn depth(&self) -> (n: usize)
        ensures
            n == self@.depth,
    {
        self.depth
    }

    /// The counter at `col` of row `row`.
    pub fn counter(&self, row: usize, col: usize) -> (c: u32)
        requires
            self.wf(),
            row < self@.depth,
            col < self@.width,
        ensures
            c == self@.counters[row as int][col as int],
    {
        assert(self@.counters[row as int] == self.counters@[row as int]@);
        self.counters[row][col]
    }

    /// Sets the counter at `col` of row `row` to `value`.
    pub fn set_counter(&mut self, row: usize, col: usize, value: u32)
        requires
            old(self).wf(),
            row < old(self)@.depth,
            col < old(self)@.width,
        ensures
            final(self).wf(),
            final(self)@ == (SketchView {
                counters: old(self)@.counters.update(
                    row as int,
                    old(self)@.counters[row as int].update(col as int, value),
                ),
                ..old(self)@
            }),
    {
        let ghost v0 = self@;
        assert(v0.counters[row as int] == self.counters@[row as int]@);
        let r = &mut self.counters[row];
        r.set(col, value);
        proof {
            assert(self@.counters =~= v0.counters.update(row as int, v0.counters[row as int].update(col as int, value)));
            assert forall|k: int| 0 <= k < self@.depth implies (#[trigger] self@.counters[k]).len() == self@.width by {
                if k != row {
                    assert(self@.counters[k] == v0.counters[k]);
                }
            }
        }
    }
}

/// Adding to a key keeps a sketch well formed and hashable.
pub proof fn lemma_add_wf(v: SketchView, key: Seq<u8>, amount: u32)
    requires
        sketch_wf(v),
        hashable(v),
    ensures
        sketch_wf(add_spec(v, key, amount)),
        hashable(add_spec(v, key, amount)),
{
    let w = add_spec(v, key, amount);
    assert forall|i: int| 0 <= i < w.depth implies (#[trigger] w.counters[i]).len() == w.width by {
        assert(w.counters[i] == added_row(v, key, amount, i));
    }
}

proof fn lemma_row_min_after_add(v: SketchView, key: Seq<u8>, amount: u32, n: nat)
    requires
        sketch_wf(v),
        hashable(v),
        n <= v.depth,
    ensures
        row_min(add_spec(v, key, amount), key, n) == sat_add(row_min(v, key, n), amount),
    decreases n,
{
    if n > 0 {
        lemma_row_min_after_add(v, key, amount, (n - 1) as nat);
        let i = n - 1;
        let w = add_spec(v, key, amount);
        assert(w.counters[i] == added_row(v, key, amount, i));
        assert(cell(w, key, i) == sat_add(cell(v, key, i), amount));
    }
}

/// Adding `amount` to a key raises its estimate by exactly `amount`,
/// saturating at `u32::MAX`.
pub proof fn lemma_estimate_after_add(v: SketchView, key: Seq<u8>, amount: u32)
    requires
        sketch_wf(v),
        hashable(v),
    ensures
        estimate_spec(add_spec(v, key, amount), key) == sat_add(estimate_spec(v, key), amount),
{
    lemma_row_min_after_add(v, key, amount, v.depth as nat);
}

proof fn lemma_row_min_monotone(v: SketchView, key: Seq<u8>, other: Seq<u8>, amount: u32, n: nat)
    requires
        sketch_wf(v),
        hashable(v),
        n <= v.depth,
    ensures
        row_min(add_spec(v, other, amount), key, n) >= row_min(v, key, n),
    decreases n,
{
    if n > 0 {
        lemma_row_min_monotone(v, key, other, amount, (n - 1) as nat);
        let i = n - 1;
        let w = add_spec(v, other, amount);
        assert(w.counters[i] == added_row(v, other, amount, i));
        assert(cell(w, key, i) >= cell(v, key, i));
    }
}

/// Adding to any key never lowers the estimate of a key.
pub proof fn lemma_estimate_monotone(v: SketchView, key: Seq<u8>, other: Seq<u8>, amount: u32)
    requires
        sketch_wf(v),
        hashable(v),
    ensures
        estimate_spec(add_spec(v, other, amount), key) >= estimate_spec(v, key),
{
    lemma_row_min_monotone(v, key, other, amount, v.depth as nat);
}

proof fn lemma_row_min_bounded_rise(v: SketchView, key: Seq<u8>, other: Seq<u8>, amount: u32, n: nat)
    requires
        sketch_wf(v),
        hashable(v),
        n <= v.depth,
    ensures
        row_min(add_spec(v, other, amount), key, n) <= sat_add(row_min(v, key, n), amount),
    decreases n,
{
    if n > 0 {
        lemma_row_min_bounded_rise(v, key, other, amount, (n - 1) as nat);
        let i = n - 1;
        let w = add_spec(v, other, amount);
        assert(w.counters[i] == added_row(v, other, amount, i));
        assert(cell(w, key, i) <= sat_add(cell(v, key, i), amount));
    }
}

/// Adding `amount` to any key raises the estimate of a key by at most
/// `amount` (saturating).
pub proof fn lemma_estimate_bounded_rise(v: SketchView, key: Seq<u8>, other: Seq<u8>, amount: u32)
    requires
        sketch_wf(v),
        hashable(v),
    ensures
        estimate_spec(add_spec(v, other, amount), key) <= sat_add(estimate_spec(v, key), amount),
{
    lemma_row_min_bounded_rise(v, key, other, amount, v.depth as nat);
}

/// One increment of `key` raises its estimate by exactly one (saturating),
/// raises the estimate of any other key by at most one and lowers none, and
/// keeps the sketch's shape, hence its memory size.
pub proof fn lemma_increment_estimates(v: SketchView, key: Seq<u8>, other: Seq<u8>)
    requires
        sketch_wf(v),
        hashable(v),
    ensures
        estimate_spec(add_spec(v, key, 1), key) == sat_add(estimate_spec(v, key), 1),
        estimate_spec(v, other) <= estimate_spec(add_spec(v, key, 1), other),
        estimate_spec(add_spec(v, key, 1), other) <= sat_add(estimate_spec(v, other), 1),
        add_spec(v, key, 1).width == v.width,
        add_spec(v, key, 1).depth == v.depth,
{
    lemma_estimate_after_add(v, key, 1);
    lemma_estimate_monotone(v, other, key, 1);
    lemma_estimate_bounded_rise(v, other, key, 1);
}

proof fn lemma_row_min_zero(v: SketchView, key: Seq<u8>, n: nat)
    requires
        sketch_wf(v),
        hashable(v),
        0 < n <= v.depth,
    ensures
        row_min(clear_spec(v), key, n) == 0,
    decreases n,
{
    if n > 1 {
        lemma_row_min_zero(v, key, (n - 1) as nat);
    }
}

/// After clearing, every key is estimated at zero (when the sketch has rows).
pub proof fn lemma_clear_estimate(v: SketchView, key: Seq<u8>)
    requires
        sketch_wf(v),
        hashable(v),
        v.depth > 0,
    ensures
        estimate_spec(clear_spec(v), key) == 0,
{
    lemma_row_min_zero(v, key, v.depth as nat);
}

/// A sketch after a sequence of (key bytes, amount) additions, in order.
pub open spec fn apply_adds(v: SketchView, ops: Seq<(Seq<u8>, u32)>) -> SketchView
    decreases ops.len(),
{
    if ops.len() == 0 {
        v
    } else {
        add_spec(apply_adds(v, ops.drop_last()), ops.last().0, ops.last().1)
    }
}

/// The true count of a key over a sequence of additions: the sum of the
/// amounts added to it.
pub open spec fn true_count(ops: Seq<(Seq<u8>, u32)>, key: Seq<u8>) -> nat
    decreases ops.len(),
{
    if ops.len() == 0 {
        0
    } else if ops.last().0 == key {
        true_count(ops.drop_last(), key) + ops.last().1 as nat
    } else {
        true_count(ops.drop_last(), key)
    }
}

/// The estimate never falls below the true count: after any sequence of
/// additions, a key's estimate is at least its estimate before plus the
/// amounts added to it (capped at `u32::MAX`).
pub proof fn lemma_never_underestimates(v: SketchView, ops: Seq<(Seq<u8>, u32)>, key: Seq<u8>)
    requires
        sketch_wf(v),
        hashable(v),
    ensures
        sketch_wf(apply_adds(v, ops)),
        hashable(apply_adds(v, ops)),
        estimate_spec(apply_adds(v, ops), key) >= if estimate_spec(v, key) + true_count(ops, key) > u32::MAX {
            u32::MAX as int
        } else {
            estimate_spec(v, key) + true_count(ops, key)
        },
    decreases ops.len(),
{
    if ops.len() > 0 {
        let d = ops.drop_last();
        lemma_never_underestimates(v, d, key);
        let w = apply_adds(v, d);
        lemma_add_wf(w, ops.last().0, ops.last().1);
        if ops.last().0 == key {
            lemma_estimate_after_add(w, key, ops.last().1);
        } else {
            lemma_estimate_monotone(w, key, ops.last().0, ops.last().1);
        }
    }
}

/// Every counter of a sketch is zero (as `new` leaves it).
pub open spec fn all_zero_counters(v: SketchView) -> bool {
    forall|i: int, j: int| 0 <= i < v.depth && 0 <= j < v.width ==> #[trigger] v.counters[i][j] == 0
}

/// Sketches are deterministic: two well-formed sketches of the same shape
/// with every counter zero (two results of `new(w, d)`) are equal, so the
/// same additions give the same estimates; and a fresh sketch with rows
/// estimates every key at zero.
pub proof fn lemma_fresh_sketches_agree(a: SketchView, b: SketchView, ops: Seq<(Seq<u8>, u32)>, key: Seq<u8>)
    requires
        sketch_wf(a),
        sketch_wf(b),
        a.width == b.width,
        a.depth == b.depth,
        all_zero_counters(a),
        all_zero_counters(b),
    ensures
        a == b,
        estimate_spec(apply_adds(a, ops), key) == estimate_spec(apply_adds(b, ops), key),
        a.depth > 0 && a.width > 0 ==> estimate_spec(a, key) == 0,
{
    assert forall|i: int| 0 <= i < a.depth implies #[trigger] a.counters[i] =~= b.counters[i] by {}
    assert(a.counters =~= b.counters);
    assert(a.seeds =~= b.seeds);
    if a.depth > 0 && a.width > 0 {
        assert forall|i: int| 0 <= i < a.depth implies #[trigger] a.counters[i] =~= clear_spec(a).counters[i] by {}
        assert(a.counters =~= clear_spec(a).counters);
        assert(a == clear_spec(a));
        lemma_clear_estimate(a, key);
    }
}

proof fn lemma_row_min_is_min(v: SketchView, key: Seq<u8>, n: nat)
    ensures
        forall|i: int| 0 <= i < n ==> row_min(v, key, n) <= #[trigger] cell(v, key, i),
        n > 0 ==> exists|i: int| 0 <= i < n && row_min(v, key, n) == #[trigger] cell(v, key, i),
        n == 0 ==> row_min(v, key, n) == u32::MAX,
    decreases n,
{
    if n > 0 {
        let k = (n - 1) as nat;
        lemma_row_min_is_min(v, key, k);
        let m = row_min(v, key, k);
        let c = cell(v, key, k as int);
        let r = row_min(v, key, n);
        assert(r == if c < m { c } else { m });
        assert forall|i: int| 0 <= i < n implies r <= #[trigger] cell(v, key, i) by {
            if i < k {
                assert(m <= cell(v, key, i));
            }
        }
        if c < m || k == 0 {
            assert(r == cell(v, key, k as int));
        } else {
            let i = choose|i: int| 0 <= i < k && m == #[trigger] cell(v, key, i);
            assert(r == cell(v, key, i));
        }
    }
}

/// The estimate of a key is the smallest of its counters: no larger than its
/// counter in any row, and equal to one of them when the sketch has rows
/// (`u32::MAX` when it has none).
pub proof fn lemma_estimate_is_row_minimum(v: SketchView, key: Seq<u8>)
    ensures
        forall|i: int| 0 <= i < v.depth ==> estimate_spec(v, key) <= #[trigger] cell(v, key, i),
        v.depth > 0 ==> exists|i: int| 0 <= i < v.depth && estimate_spec(v, key) == #[trigger] cell(v, key, i),
        v.depth == 0 ==> estimate_spec(v, key) == u32::MAX,
{
    lemma_row_min_is_min(v, key, v.depth as nat);
}

} // verus!
