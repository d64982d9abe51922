//! Counting bloom filter: fixed-width saturating counters packed into machine words.
use core::marker::PhantomData;
use vstd::arithmetic::power2::{lemma2_to64, pow2};
use vstd::prelude::*;

use crate::hashing::SeededHash;

verus! {

/// Why a counting bloom filter could not be built.
#[derive(Debug, Clone, Copy, PartialEq, Eq)]
pub enum Error {
    /// The hash count is zero or exceeds the number of counters.
    InvalidHashCount(u32),
    /// The number of counters is zero.
    InvalidBinCount(usize),
    /// The counter width exceeds the word width (the second field).
    BitsPerCounterTooLarge(u32, u32),
    /// The counter width does not evenly divide the word width (the second field).
    BitsPerCounterUnaligned(u32, u32),
}

/// Width in bits of a word of the counter array.
pub const WORD_BITS: u32 = 64;

/// Counter width used by `CountingBloomFilter::new`.
pub const DEFAULT_BITS_PER_COUNTER: u32 = 4;

/// A counter width that packs evenly into a word.
pub open spec fn divides_word(bits: u32) -> bool {
    0 < bits <= 64 && 64u32 % bits == 0
}

/// `a / b` rounded up.
pub open spec fn ceil_div(a: nat, b: nat) -> nat {
    a / b + if a % b == 0 { 0nat } else { 1nat }
}

/// The counter at bit offset `shift` of `word`, `max` being its all-ones value.
pub open spec fn slot_of(word: u64, shift: u64, max: u64) -> u64 {
    ((max << shift) & word) >> shift
}

/// `words` after writing each staged `(bin, word)` pair in order (pairs
/// outside the sequence are ignored).
pub open spec fn applied(words: Seq<u64>, staged: Seq<(usize, u64)>) -> Seq<u64>
    decreases staged.len(),
{
    if staged.len() == 0 {
        words
    } else {
        let prev = applied(words, staged.drop_last());
        if staged.last().0 < prev.len() {
            prev.update(staged.last().0 as int, staged.last().1)
        } else {
            prev
        }
    }
}

proof fn lemma_divides_word_cases(bits: u32)
    requires
        divides_word(bits),
    ensures
        bits == 1 || bits == 2 || bits == 4 || bits == 8 || bits == 16 || bits == 32 || bits
            == 64,
{
    assert(0 < bits <= 64 && 64u32 % bits == 0 ==> (bits == 1 || bits == 2 || bits == 4 || bits
        == 8 || bits == 16 || bits == 32 || bits == 64)) by (bit_vector);
}

proof fn lemma_slot_bounded(w: u64, sh: u64, bits: u64, max: u64)
    requires
        0 < bits <= 64,
        sh + bits <= 64,
        max == !0u64 >> ((64 - bits) as u64),
    ensures
        ((max << sh) & w) >> sh <= max,
{
    assert(((max << sh) & w) >> sh <= max) by (bit_vector)
        requires
            0 < bits <= 64,
            sh + bits <= 64,
            max == !0u64 >> ((64 - bits) as u64),
    ;
}

proof fn lemma_slot_of_zero(sh: u64, max: u64)
    ensures
        ((max << sh) & 0u64) >> sh == 0,
{
    assert(((max << sh) & 0u64) >> sh == 0) by (bit_vector);
}

proof fn lemma_with_slot_same(w: u64, sh: u64, bits: u64, max: u64, v: u64)
    requires
        0 < bits <= 64,
        sh + bits <= 64,
        max == !0u64 >> ((64 - bits) as u64),
        v <= max,
    ensures
        ((max << sh) & ((w & !(max << sh)) | (v << sh))) >> sh == v,
{
    assert(((max << sh) & ((w & !(max << sh)) | (v << sh))) >> sh == v) by (bit_vector)
        requires
            0 < bits <= 64,
            sh + bits <= 64,
            max == !0u64 >> ((64 - bits) as u64),
            v <= max,
    ;
}

proof fn lemma_with_slot_other(w: u64, sh: u64, sh2: u64, bits: u64, max: u64, v: u64)
    requires
        0 < bits <= 64,
        sh + bits <= 64,
        sh2 + bits <= 64,
        sh + bits <= sh2 || sh2 + bits <= sh,
        max == !0u64 >> ((64 - bits) as u64),
        v <= max,
    ensures
        ((max << sh) & ((w & !(max << sh2)) | (v << sh2))) >> sh == ((max << sh) & w) >> sh,
{
    assert(((max << sh) & ((w & !(max << sh2)) | (v << sh2))) >> sh == ((max << sh) & w) >> sh)
        by (bit_vector)
        requires
            0 < bits <= 64,
            sh + bits <= 64,
            sh2 + bits <= 64,
            sh + bits <= sh2 || sh2 + bits <= sh,
            max == !0u64 >> ((64 - bits) as u64),
            v <= max,
    ;
}

proof fn lemma_max_cases(bits: u64, max: u64)
    requires
        (bits == 1 && max == 1) || (bits == 2 && max == 3) || (bits == 4 && max == 15) || (bits
            == 8 && max == 0xff) || (bits == 16 && max == 0xffff) || (bits == 32 && max
            == 0xffff_ffff) || (bits == 64 && max == 0xffff_ffff_ffff_ffff),
    ensures
        max == !0u64 >> ((64 - bits) as u64),
{
    assert(max == !0u64 >> ((64 - bits) as u64)) by (bit_vector)
        requires
            (bits == 1 && max == 1) || (bits == 2 && max == 3) || (bits == 4 && max == 15) || (
            bits == 8 && max == 0xff) || (bits == 16 && max == 0xffff) || (bits == 32 && max
                == 0xffff_ffff) || (bits == 64 && max == 0xffff_ffff_ffff_ffff),
    ;
}

proof fn lemma_width_facts(bits: u32, max: u64)
    requires
        divides_word(bits),
        max as int == pow2(bits as nat) - 1,
    ensures
        max == !0u64 >> ((64 - bits) as u64),
        (64u32 / bits) as int * bits as int == 64,
        64u32 / bits > 0,
{
    lemma_divides_word_cases(bits);
    lemma2_to64();
    if bits == 1 {
        lemma_max_cases(1, max);
    } else if bits == 2 {
        lemma_max_cases(2, max);
    } else if bits == 4 {
        lemma_max_cases(4, max);
    } else if bits == 8 {
        lemma_max_cases(8, max);
    } else if bits == 16 {
        lemma_max_cases(16, max);
    } else if bits == 32 {
        lemma_max_cases(32, max);
    } else {
        lemma_max_cases(64, max);
    }
}

/// The first check that a configuration fails, in the order: counter width
/// too large, counter width not dividing the word, no counters, hash count
/// zero or above the counter count.
pub open spec fn config_error(num_counters: usize, num_hashes: u32, bits_per_counter: u32) -> Option<Error> {
    if bits_per_counter > WORD_BITS {
        Some(Error::BitsPerCounterTooLarge(bits_per_counter, WORD_BITS))
    } else if !divides_word(bits_per_counter) {
        Some(Error::BitsPerCounterUnaligned(bits_per_counter, WORD_BITS))
    } else if num_counters == 0 {
        Some(Error::InvalidBinCount(num_counters))
    } else if num_hashes == 0 || num_hashes as int > num_counters as int {
        Some(Error::InvalidHashCount(num_hashes))
    } else {
        None
    }
}

/// Every counter width that divides the word builds a filter (given a
/// nonzero counter count and a hash count from one up to it), and the
/// full-width counter saturates at the all-ones word.
pub proof fn valid_widths_accepted(num_counters: usize, num_hashes: u32, bits_per_counter: u32)
    requires
        divides_word(bits_per_counter),
        0 < num_hashes,
        num_hashes as int <= num_counters as int,
    ensures
        config_error(num_counters, num_hashes, bits_per_counter) is None,
        bits_per_counter == 64 ==> pow2(bits_per_counter as nat) - 1 == u64::MAX,
{
    lemma2_to64();
}

/// The largest value a counter of `n_bits` bits holds: `2^n_bits - 1`, which
/// for the full word width is the all-ones word.
pub fn calc_max_counter(n_bits: &u32) -> (r: u64)
    requires
        *n_bits <= 64,
    ensures
        r as int == pow2(*n_bits as nat) - 1,
{
    let n = *n_bits;
    let mut r: u64 = 0;
    let mut i: u32 = 0;
    proof {
        lemma2_to64();
    }
    while i < n
        invariant
            i <= n <= 64,
            r as int == pow2(i as nat) - 1,
        decreases n - i,
    {
        proof {
            vstd::arithmetic::power2::lemma_pow2_unfold((i + 1) as nat);
            if i + 1 < 64 {
                vstd::arithmetic::power2::lemma_pow2_strictly_increases((i + 1) as nat, 64);
            }
            lemma2_to64();
        }
        r = r * 2 + 1;
        i = i + 1;
    }
    r
}

proof fn lemma_applied_len(words: Seq<u64>, staged: Seq<(usize, u64)>)
    ensures
        applied(words, staged).len() == words.len(),
    decreases staged.len(),
{
    if staged.len() > 0 {
        lemma_applied_len(words, staged.drop_last());
    }
}

/// Entries past `i` that stage other bins leave `bin`'s word as it was.
proof fn lemma_applied_skip(words: Seq<u64>, staged: Seq<(usize, u64)>, i: int, bin: int)
    requires
        0 <= i <= staged.len(),
        0 <= bin < words.len(),
        forall|k: int| i <= k < staged.len() ==> staged[k].0 as int != bin,
    ensures
        applied(words, staged)[bin] == applied(words, staged.take(i))[bin],
    decreases staged.len(),
{
    lemma_applied_len(words, staged);
    lemma_applied_len(words, staged.take(i));
    if staged.len() > i {
        lemma_applied_skip(words, staged.drop_last(), i, bin);
        lemma_applied_len(words, staged.drop_last());
        assert(staged.drop_last().take(i) =~= staged.take(i));
    } else {
        assert(staged.take(i) =~= staged);
    }
}

/// Counting bloom filter: `n_hashes` digests of a key select counters, each
/// saturating at `counter_max`; membership and multiplicity are read from them.
pub struct CountingBloomFilter<T: SeededHash> {
    counter_bins: Vec<u64>,
    counter_max: u64,
    counters_per_bin: u32,
    bits_per_counter: u32,
    n_hashes: u32,
    _hasher: PhantomData<T>,
}

impl<T: SeededHash> CountingBloomFilter<T> {
    pub closed spec fn wf(&self) -> bool {
        &&& divides_word(self.bits_per_counter)
        &&& self.counters_per_bin as int * self.bits_per_counter as int == 64
        &&& 0 < self.counters_per_bin
        &&& self.counter_max == !0u64 >> ((64 - self.bits_per_counter) as u64)
        &&& self.counter_max as int == pow2(self.bits_per_counter as nat) - 1
        &&& 0 < self.counter_bins.len()
        &&& 0 < self.n_hashes
    }

    /// Number of words in the counter array.
    pub closed spec fn num_bins(&self) -> nat {
        self.counter_bins@.len()
    }

    pub closed spec fn counters_per_bin(&self) -> nat {
        self.counters_per_bin as nat
    }

    pub closed spec fn bits_per_counter(&self) -> nat {
        self.bits_per_counter as nat
    }

    /// The value at which a counter saturates.
    pub closed spec fn counter_max(&self) -> nat {
        self.counter_max as nat
    }

    /// Number of digests, and so of counters, per key.
    pub closed spec fn hash_count(&self) -> nat {
        self.n_hashes as nat
    }

    /// The words of the counter array.
    pub closed spec fn words(&self) -> Seq<u64> {
        self.counter_bins@
    }

    /// The value of counter `slot` within `word`.
    pub closed spec fn slot_value(&self, word: u64, slot: int) -> nat {
        slot_of(word, (slot * self.bits_per_counter) as u64, self.counter_max) as nat
    }

    /// The counter `slot` of word `bin`.
    pub open spec fn counter(&self, bin: int, slot: int) -> nat {
        self.slot_value(self.words()[bin], slot)
    }

    pub open spec fn in_range(&self, bin: int, slot: int) -> bool {
        0 <= bin < self.num_bins() && 0 <= slot < self.counters_per_bin()
    }

    /// The counter that a digest selects: word `h mod num_bins`, slot `h mod counters_per_bin`.
    pub open spec fn cell(&self, h: u64) -> (int, int) {
        ((h as int) % (self.num_bins() as int), (h as int) % (self.counters_per_bin() as int))
    }

    /// How many of the digests `hs` select counter `slot` of word `bin`.
    pub open spec fn hits(&self, hs: Seq<u64>, bin: int, slot: int) -> nat
        decreases hs.len(),
    {
        if hs.len() == 0 {
            0
        } else {
            self.hits(hs.drop_last(), bin, slot) + if self.cell(hs.last()) == (bin, slot) {
                1nat
            } else {
                0nat
            }
        }
    }

    /// The counter that digest `h` selects.
    pub open spec fn counter_of(&self, h: u64) -> nat {
        self.counter(self.cell(h).0, self.cell(h).1)
    }

    /// Every selected counter has room for each of its hits.
    pub open spec fn can_add(&self, hs: Seq<u64>) -> bool {
        forall|j: int|
            0 <= j < hs.len() ==> #[trigger] self.counter_of(hs[j]) + self.hits(
                hs,
                self.cell(hs[j]).0,
                self.cell(hs[j]).1,
            ) <= self.counter_max()
    }

    /// Every selected counter is at least its number of hits.
    pub open spec fn can_remove(&self, hs: Seq<u64>) -> bool {
        forall|j: int|
            0 <= j < hs.len() ==> #[trigger] self.counter_of(hs[j]) >= self.hits(
                hs,
                self.cell(hs[j]).0,
                self.cell(hs[j]).1,
            )
    }

    /// Every selected counter is nonzero.
    pub open spec fn all_set(&self, hs: Seq<u64>) -> bool {
        forall|j: int| 0 <= j < hs.len() ==> #[trigger] self.counter_of(hs[j]) > 0
    }

    /// The least of the selected counters (zero for no digests).
    pub open spec fn min_counter(&self, hs: Seq<u64>) -> nat
        decreases hs.len(),
    {
        if hs.len() == 0 {
            0
        } else if hs.len() == 1 {
            self.counter_of(hs[0])
        } else {
            let m = self.min_counter(hs.drop_last());
            let c = self.counter_of(hs.last());
            if c < m {
                c
            } else {
                m
            }
        }
    }

    /// Same dimensions and parameters.
    pub open spec fn same_shape(&self, other: &Self) -> bool {
        &&& self.num_bins() == other.num_bins()
        &&& self.counters_per_bin() == other.counters_per_bin()
        &&& self.bits_per_counter() == other.bits_per_counter()
        &&& self.counter_max() == other.counter_max()
        &&& self.hash_count() == other.hash_count()
    }

    /// Each counter of `self` is that of `prev` raised by its hits from `hs`.
    pub open spec fn raised_from(&self, prev: &Self, hs: Seq<u64>) -> bool {
        forall|b: int, s: int|
            prev.in_range(b, s) ==> #[trigger] self.counter(b, s) == prev.counter(b, s)
                + prev.hits(hs, b, s)
    }

    /// Each counter of `self` is that of `prev` lowered by its hits from `hs`.
    pub open spec fn lowered_from(&self, prev: &Self, hs: Seq<u64>) -> bool {
        forall|b: int, s: int|
            prev.in_range(b, s) ==> #[trigger] self.counter(b, s) + prev.hits(hs, b, s)
                == prev.counter(b, s)
    }

    /// The digests of `key` under seeds `0 .. hash_count`.
    pub open spec fn key_hashes(&self, key: Seq<u8>) -> Seq<u64> {
        Seq::new(self.hash_count(), |j: int| T::spec_digest(j as u32, key))
    }

    proof fn lemma_hits_step(&self, hs: Seq<u64>, j: int, bin: int, slot: int)
        requires
            0 <= j < hs.len(),
        ensures
            self.hits(hs.take(j + 1), bin, slot) == self.hits(hs.take(j), bin, slot) + if self.cell(
                hs[j],
            ) == (bin, slot) {
                1nat
            } else {
                0nat
            },
    {
        assert(hs.take(j + 1).drop_last() =~= hs.take(j));
    }

    proof fn lemma_hits_prefix(&self, hs: Seq<u64>, j: int, bin: int, slot: int)
        requires
            0 <= j <= hs.len(),
        ensures
            self.hits(hs.take(j), bin, slot) <= self.hits(hs, bin, slot),
        decreases hs.len() - j,
    {
        if j < hs.len() {
            self.lemma_hits_step(hs, j, bin, slot);
            self.lemma_hits_prefix(hs, j + 1, bin, slot);
        } else {
            assert(hs.take(j) =~= hs);
        }
    }

    proof fn lemma_slot_facts(&self, slot: int)
        requires
            self.wf(),
            0 <= slot < self.counters_per_bin(),
        ensures
            slot * self.bits_per_counter + self.bits_per_counter <= 64,
    {
        let b = self.bits_per_counter as int;
        let c = self.counters_per_bin as int;
        assert(slot * b + b <= 64) by (nonlinear_arith)
            requires
                0 <= slot < c,
                c * b == 64,
                b > 0,
        ;
    }

    proof fn lemma_slots_disjoint(&self, s1: int, s2: int)
        requires
            self.wf(),
            0 <= s1 < self.counters_per_bin(),
            0 <= s2 < self.counters_per_bin(),
            s1 != s2,
        ensures
            s1 * self.bits_per_counter + self.bits_per_counter <= s2 * self.bits_per_counter
                || s2 * self.bits_per_counter + self.bits_per_counter <= s1
                * self.bits_per_counter,
    {
        let b = self.bits_per_counter as int;
        if s1 < s2 {
            assert(s1 * b + b <= s2 * b) by (nonlinear_arith)
                requires
                    s1 < s2,
                    b > 0,
            ;
        } else {
            assert(s2 * b + b <= s1 * b) by (nonlinear_arith)
                requires
                    s2 < s1,
                    b > 0,
            ;
        }
    }

    /// Word index, bit offset and mask of the counter that `hash` selects.
    fn offsets(&self, hash: u64) -> (r: (usize, u64, u64))
        requires
            self.wf(),
        ensures
            r.0 as int == self.cell(hash).0,
            r.1 as int == self.cell(hash).1 * self.bits_per_counter(),
            r.1 + self.bits_per_counter() <= 64,
            r.2 == self.counter_max << r.1,
            self.in_range(self.cell(hash).0, self.cell(hash).1),
    {
        let bin = (hash % (self.counter_bins.len() as u64)) as usize;
        let slot = hash % (self.counters_per_bin as u64);
        proof {
            self.lemma_slot_facts(slot as int);
        }
        let bitshift = slot * (self.bits_per_counter as u64);
        let counter_mask = self.counter_max << bitshift;
        (bin, bitshift, counter_mask)
    }
    /// The latest staged word of `bin`, or the stored word if none is staged.
    fn staged_word(&self, staged: &Vec<(usize, u64)>, bin: usize) -> (w: u64)
        requires
            self.wf(),
            bin < self.num_bins(),
        ensures
            w == applied(self.words(), staged@)[bin as int],
    {
        let mut k: usize = staged.len();
        while k > 0
            invariant
                k <= staged@.len(),
                bin < self.num_bins(),
                forall|m: int| k <= m < staged@.len() ==> staged@[m].0 != bin,
            decreases k,
        {
            if staged[k - 1].0 == bin {
                proof {
                    lemma_applied_skip(self.words(), staged@, k as int, bin as int);
                    assert(staged@.take(k as int).drop_last() =~= staged@.take(k - 1));
                    lemma_applied_len(self.words(), staged@.take(k - 1));
                }
                return staged[k - 1].1;
            }
            k = k - 1;
        }
        proof {
            lemma_applied_skip(self.words(), staged@, 0, bin as int);
            assert(staged@.take(0) =~= Seq::<(usize, u64)>::empty());
        }
        self.counter_bins[bin]
    }

    /// Stages, per word, the change of every counter that `hs` selects by one
    /// per hit (up when `up`, else down), reading staged words before stored
    /// ones; `None`, with nothing staged, where a counter would pass
    /// `counter_max` or go below zero.
    fn stage(&self, hs: &[u64], up: bool) -> (r: Option<Vec<(usize, u64)>>)
        requires
            self.wf(),
        ensures
            r is Some <==> (if up {
                self.can_add(hs@)
            } else {
                self.can_remove(hs@)
            }),
            r matches Some(st) ==> applied(self.words(), st@).len() == self.num_bins(),
            r matches Some(st) ==> forall|b: int, s: int|
                self.in_range(b, s) ==> #[trigger] self.slot_value(
                    applied(self.words(), st@)[b],
                    s,
                ) as int == if up {
                    (self.counter(b, s) + self.hits(hs@, b, s)) as int
                } else {
                    self.counter(b, s) - self.hits(hs@, b, s)
                },
    {
        let mut staged: Vec<(usize, u64)> = Vec::new();
        let mut j: usize = 0;
        while j < hs.len()
            invariant
                self.wf(),
                0 <= j <= hs@.len(),
                applied(self.words(), staged@).len() == self.num_bins(),
                forall|b: int, s: int|
                    self.in_range(b, s) ==> #[trigger] self.slot_value(
                        applied(self.words(), staged@)[b],
                        s,
                    ) as int == if up {
                        (self.counter(b, s) + self.hits(hs@.take(j as int), b, s)) as int
                    } else {
                        self.counter(b, s) - self.hits(hs@.take(j as int), b, s)
                    },
            decreases hs@.len() - j,
        {
            let h = hs[j];
            let (bin, bitshift, counter_mask) = self.offsets(h);
            let word = self.staged_word(&staged, bin);
            let ghost eff = applied(self.words(), staged@);
            let ghost slot = self.cell(h).1;
            let ghost bits = self.bits_per_counter as u64;
            let counter = (counter_mask & word) >> bitshift;
            proof {
                lemma_slot_bounded(word, bitshift, bits, self.counter_max);
                self.lemma_hits_step(hs@, j as int, bin as int, slot);
                self.lemma_hits_prefix(hs@, j + 1, bin as int, slot);
                assert(self.slot_value(eff[bin as int], slot) == counter);
                assert(hs@[j as int] == h);
            }
            if up && counter == self.counter_max {
                proof {
                    assert(self.counter_of(hs@[j as int]) + self.hits(hs@, bin as int, slot)
                        > self.counter_max());
                }
                return None;
            }
            if !up && counter == 0 {
                proof {
                    assert(self.counter_of(hs@[j as int]) < self.hits(hs@, bin as int, slot));
                }
                return None;
            }
            let next = if up {
                counter + 1
            } else {
                counter - 1
            };
            let new_word = (word & !counter_mask) | (next << bitshift);
            proof {
                let st2 = staged@.push((bin, new_word));
                assert(st2.drop_last() =~= staged@);
                assert(st2.last() == (bin, new_word));
                let eff2 = applied(self.words(), st2);
                assert(eff2 == eff.update(bin as int, new_word));
                assert forall|b: int, s: int| self.in_range(b, s) implies #[trigger] self.slot_value(
                    eff2[b],
                    s,
                ) as int == if up {
                    (self.counter(b, s) + self.hits(hs@.take(j + 1), b, s)) as int
                } else {
                    self.counter(b, s) - self.hits(hs@.take(j + 1), b, s)
                } by {
                    self.lemma_hits_step(hs@, j as int, b, s);
                    self.lemma_slot_facts(s);
                    let old_val = self.slot_value(eff[b], s);
                    assert(old_val as int == if up {
                        (self.counter(b, s) + self.hits(hs@.take(j as int), b, s)) as int
                    } else {
                        self.counter(b, s) - self.hits(hs@.take(j as int), b, s)
                    });
                    if b == bin as int {
                        if s == slot {
                            lemma_with_slot_same(word, bitshift, bits, self.counter_max, next);
                        } else {
                            self.lemma_slots_disjoint(s, slot);
                            lemma_with_slot_other(
                                word,
                                (s * self.bits_per_counter) as u64,
                                bitshift,
                                bits,
                                self.counter_max,
                                next,
                            );
                            assert(self.cell(h) != (b, s));
                        }
                    } else {
                        assert(eff2[b] == eff[b]);
                        assert(self.cell(h) != (b, s));
                    }
                }
            }
            staged.push((bin, new_word));
            j = j + 1;
        }
        proof {
            let eff = applied(self.words(), staged@);
            assert(hs@.take(j as int) =~= hs@);
            assert forall|b: int, s: int| self.in_range(b, s) implies #[trigger] self.slot_value(
                eff[b],
                s,
            ) <= self.counter_max() by {
                self.lemma_slot_facts(s);
                lemma_slot_bounded(
                    eff[b],
                    (s * self.bits_per_counter) as u64,
                    self.bits_per_counter as u64,
                    self.counter_max,
                );
            }
            if up {
                assert forall|jj: int| 0 <= jj < hs@.len() implies #[trigger] self.counter_of(hs@[jj])
                    + self.hits(hs@, self.cell(hs@[jj]).0, self.cell(hs@[jj]).1)
                    <= self.counter_max() by {
                    let c = self.cell(hs@[jj]);
                    assert(self.in_range(c.0, c.1));
                    assert(self.slot_value(eff[c.0], c.1) <= self.counter_max());
                }
            } else {
                assert forall|jj: int| 0 <= jj < hs@.len() implies #[trigger] self.counter_of(hs@[jj])
                    >= self.hits(hs@, self.cell(hs@[jj]).0, self.cell(hs@[jj]).1) by {
                    let c = self.cell(hs@[jj]);
                    assert(self.in_range(c.0, c.1));
                    assert(self.slot_value(eff[c.0], c.1) >= 0);
                }
            }
        }
        Some(staged)
    }
    /// Writes the staged words into the counter array, in order.
    fn commit(&mut self, staged: &Vec<(usize, u64)>)
        requires
            old(self).wf(),
        ensures
            final(self).counter_bins@ == applied(old(self).counter_bins@, staged@),
            final(self).counter_max == old(self).counter_max,
            final(self).counters_per_bin == old(self).counters_per_bin,
            final(self).bits_per_counter == old(self).bits_per_counter,
            final(self).n_hashes == old(self).n_hashes,
    {
        let mut i: usize = 0;
        while i < staged.len()
            invariant
                i <= staged@.len(),
                self.counter_bins@ == applied(old(self).counter_bins@, staged@.take(i as int)),
                self.counter_max == old(self).counter_max,
                self.counters_per_bin == old(self).counters_per_bin,
                self.bits_per_counter == old(self).bits_per_counter,
                self.n_hashes == old(self).n_hashes,
            decreases staged@.len() - i,
        {
            proof {
                assert(staged@.take(i + 1).drop_last() =~= staged@.take(i as int));
                lemma_applied_len(old(self).counter_bins@, staged@.take(i as int));
            }
            let (bin, word) = staged[i];
            if bin < self.counter_bins.len() {
                self.counter_bins.set(bin, word);
            }
            i = i + 1;
        }
        proof {
            assert(staged@.take(i as int) =~= staged@);
        }
    }

    /// Raises each counter that `hs` selects by one per hit, all together, or
    /// changes nothing where that would take a counter past `counter_max`.
    pub fn add_hashes(&mut self, hs: &[u64]) -> (r: bool)
        requires
            old(self).wf(),
        ensures
            final(self).wf(),
            final(self).same_shape(old(self)),
            r == old(self).can_add(hs@),
            r ==> final(self).raised_from(old(self), hs@),
            !r ==> *final(self) == *old(self),
    {
        match self.stage(hs, true) {
            Some(staged) => {
                self.commit(&staged);
                proof {
                    lemma_applied_len(old(self).counter_bins@, staged@);
                    assert forall|b: int, s: int| old(self).in_range(b, s) implies #[trigger] self.counter(b, s) == old(self).slot_value(
                        applied(old(self).words(), staged@)[b],
                        s,
                    ) by {}
                    assert(self.raised_from(old(self), hs@));
                }
                true
            },
            None => false,
        }
    }

    /// Lowers each counter that `hs` selects by one per hit, all together, or
    /// changes nothing where that would take a counter below zero.
    pub fn remove_hashes(&mut self, hs: &[u64]) -> (r: bool)
        requires
            old(self).wf(),
        ensures
            final(self).wf(),
            final(self).same_shape(old(self)),
            r == old(self).can_remove(hs@),
            r ==> final(self).lowered_from(old(self), hs@),
            !r ==> *final(self) == *old(self),
    {
        match self.stage(hs, false) {
            Some(staged) => {
                self.commit(&staged);
                proof {
                    lemma_applied_len(old(self).counter_bins@, staged@);
                    assert forall|b: int, s: int| old(self).in_range(b, s) implies #[trigger] self.counter(b, s) == old(self).slot_value(
                        applied(old(self).words(), staged@)[b],
                        s,
                    ) by {}
                    assert(self.lowered_from(old(self), hs@));
                }
                true
            },
            None => false,
        }
    }

    /// The counter that `hash` selects.
    fn read(&self, hash: u64) -> (r: u64)
        requires
            self.wf(),
        ensures
            r as nat == self.counter_of(hash),
    {
        let (bin, bitshift, counter_mask) = self.offsets(hash);
        (counter_mask & self.counter_bins[bin]) >> bitshift
    }

    /// Whether every counter that `hs` selects is nonzero.
    pub fn contains_hashes(&self, hs: &[u64]) -> (r: bool)
        requires
            self.wf(),
        ensures
            r == self.all_set(hs@),
    {
        let mut j: usize = 0;
        while j < hs.len()
            invariant
                self.wf(),
                j <= hs@.len(),
                forall|jj: int| 0 <= jj < j ==> #[trigger] self.counter_of(hs@[jj]) > 0,
            decreases hs@.len() - j,
        {
            if self.read(hs[j]) == 0 {
                return false;
            }
            j = j + 1;
        }
        true
    }

    /// The least of the counters that `hs` selects (zero for no digests).
    pub fn estimate_hashes(&self, hs: &[u64]) -> (r: u64)
        requires
            self.wf(),
        ensures
            r as nat == self.min_counter(hs@),
    {
        if hs.len() == 0 {
            return 0;
        }
        let mut m = self.read(hs[0]);
        let mut j: usize = 1;
        while j < hs.len()
            invariant
                self.wf(),
                1 <= j <= hs@.len(),
                m as nat == self.min_counter(hs@.take(j as int)),
            decreases hs@.len() - j,
        {
            let c = self.read(hs[j]);
            proof {
                assert(hs@.take(j + 1).drop_last() =~= hs@.take(j as int));
            }
            if c < m {
                m = c;
            }
            j = j + 1;
        }
        proof {
            assert(hs@.take(j as int) =~= hs@);
        }
        m
    }
}

impl<T: SeededHash> CountingBloomFilter<T> {
    /// A filter with 4-bit counters; see `with_bits_per_counter`.
    pub fn new(num_counters: usize, num_hashes: u32) -> (r: Result<Self, Error>)
        ensures
            r is Ok <==> config_error(num_counters, num_hashes, DEFAULT_BITS_PER_COUNTER) is None,
            r matches Err(e) ==> config_error(num_counters, num_hashes, DEFAULT_BITS_PER_COUNTER)
                == Some(e),
            r matches Ok(f) ==> f.is_fresh(num_counters, num_hashes, DEFAULT_BITS_PER_COUNTER),
    {
        Self::with_bits_per_counter(num_counters, num_hashes, DEFAULT_BITS_PER_COUNTER)
    }

    /// A well-formed filter with all counters zero, `bits_per_counter`-bit
    /// counters, `num_hashes` digests per key and `ceil(num_counters /
    /// counters_per_bin)` words.
    pub open spec fn is_fresh(&self, num_counters: usize, num_hashes: u32, bits_per_counter: u32) -> bool {
        &&& self.wf()
        &&& self.bits_per_counter() == bits_per_counter
        &&& self.counters_per_bin() == 64int / (bits_per_counter as int)
        &&& self.counter_max() == pow2(bits_per_counter as nat) - 1
        &&& self.hash_count() == num_hashes
        &&& self.num_bins() == ceil_div(num_counters as nat, self.counters_per_bin())
        &&& forall|b: int, s: int| self.in_range(b, s) ==> #[trigger] self.counter(b, s) == 0
    }

    /// A filter of at least `num_counters` counters of `bits_per_counter` bits
    /// each, which must divide the word width, and `num_hashes` digests per
    /// key, from one up to `num_counters`.
    pub fn with_bits_per_counter(num_counters: usize, num_hashes: u32, bits_per_counter: u32) -> (r:
        Result<Self, Error>)
        ensures
            r is Ok <==> config_error(num_counters, num_hashes, bits_per_counter) is None,
            r matches Err(e) ==> config_error(num_counters, num_hashes, bits_per_counter) == Some(
                e,
            ),
            r matches Ok(f) ==> f.is_fresh(num_counters, num_hashes, bits_per_counter),
    {
        if bits_per_counter > WORD_BITS {
            return Err(Error::BitsPerCounterTooLarge(bits_per_counter, WORD_BITS));
        }
        if bits_per_counter == 0 || WORD_BITS % bits_per_counter != 0 {
            return Err(Error::BitsPerCounterUnaligned(bits_per_counter, WORD_BITS));
        }
        if num_counters == 0 {
            return Err(Error::InvalidBinCount(num_counters));
        }
        if num_hashes == 0 || num_hashes as usize > num_counters {
            return Err(Error::InvalidHashCount(num_hashes));
        }
        proof {
            lemma_divides_word_cases(bits_per_counter);
        }
        let counters_per_bin = WORD_BITS / bits_per_counter;
        let per_bin = counters_per_bin as usize;
        let whole = num_counters / per_bin;
        proof {
            let rem = num_counters % per_bin;
            vstd::arithmetic::div_mod::lemma_fundamental_div_mod(num_counters as int, per_bin as int);
            assert(rem > 0 ==> whole < num_counters) by (nonlinear_arith)
                requires
                    per_bin * whole + rem == num_counters,
                    per_bin >= 1,
                    whole >= 0,
            ;
            assert(rem == 0 ==> whole > 0) by (nonlinear_arith)
                requires
                    per_bin * whole + rem == num_counters,
                    num_counters > 0,
                    per_bin >= 1,
                    whole >= 0,
            ;
        }
        let num_bins = if num_counters % per_bin == 0 {
            whole
        } else {
            whole + 1
        };
        let counter_max = calc_max_counter(&bits_per_counter);
        proof {
            lemma_width_facts(bits_per_counter, counter_max);
        }
        let f = CountingBloomFilter {
            counter_bins: vec![0u64; num_bins],
            counter_max,
            counters_per_bin,
            bits_per_counter,
            n_hashes: num_hashes,
            _hasher: PhantomData,
        };
        proof {
            assert forall|b: int, s: int| f.in_range(b, s) implies #[trigger] f.counter(b, s)
                == 0 by {
                lemma_slot_of_zero((s * bits_per_counter) as u64, counter_max);
            }
        }
        Ok(f)
    }

    /// The digests of `key`, one per seed `0 .. n_hashes`.
    fn key_digests(&self, key: &[u8]) -> (r: Vec<u64>)
        requires
            key@.len() <= i32::MAX,
        ensures
            r@ == self.key_hashes(key@),
    {
        let mut r: Vec<u64> = Vec::new();
        let mut seed: u32 = 0;
        while seed < self.n_hashes
            invariant
                key@.len() <= i32::MAX,
                seed <= self.n_hashes,
                r@ == Seq::new(seed as nat, |j: int| T::spec_digest(j as u32, key@)),
            decreases self.n_hashes - seed,
        {
            r.push(T::digest(seed, key));
            proof {
                assert(r@ =~= Seq::new((seed + 1) as nat, |j: int| T::spec_digest(j as u32, key@)));
            }
            seed = seed + 1;
        }
        r
    }

    /// Adds `key`: raises each of its counters by one per digest that selects
    /// it, all together, or changes nothing and returns false where a counter
    /// would pass `counter_max`.
    pub fn add(&mut self, key: &[u8]) -> (r: bool)
        requires
            old(self).wf(),
            key@.len() <= i32::MAX,
        ensures
            final(self).wf(),
            final(self).same_shape(old(self)),
            r == old(self).can_add(old(self).key_hashes(key@)),
            r ==> final(self).raised_from(old(self), old(self).key_hashes(key@)),
            !r ==> *final(self) == *old(self),
    {
        let hs = self.key_digests(key);
        self.add_hashes(hs.as_slice())
    }

    /// Removes `key`: lowers each of its counters by one per digest that
    /// selects it, all together, or changes nothing and returns false where a
    /// counter would go below zero.
    pub fn remove(&mut self, key: &[u8]) -> (r: bool)
        requires
            old(self).wf(),
            key@.len() <= i32::MAX,
        ensures
            final(self).wf(),
            final(self).same_shape(old(self)),
            r == old(self).can_remove(old(self).key_hashes(key@)),
            r ==> final(self).lowered_from(old(self), old(self).key_hashes(key@)),
            !r ==> *final(self) == *old(self),
    {
        let hs = self.key_digests(key);
        self.remove_hashes(hs.as_slice())
    }

    /// Whether every counter of `key` is nonzero.
    pub fn contains(&self, key: &[u8]) -> (r: bool)
        requires
            self.wf(),
            key@.len() <= i32::MAX,
        ensures
            r == self.all_set(self.key_hashes(key@)),
    {
        let hs = self.key_digests(key);
        self.contains_hashes(hs.as_slice())
    }

    /// How many times `key` is in the filter, as estimated by the least of
    /// its counters.
    pub fn estimate(&self, key: &[u8]) -> (r: u64)
        requires
            self.wf(),
            key@.len() <= i32::MAX,
        ensures
            r as nat == self.min_counter(self.key_hashes(key@)),
    {
        let hs = self.key_digests(key);
        self.estimate_hashes(hs.as_slice())
    }

    /// The words of the counter array.
    pub fn counter_bins(&self) -> (r: &[u64])
        ensures
            r@ == self.words(),
    {
        self.counter_bins.as_slice()
    }
    /// No two digests of `hs` select the same counter.
    pub open spec fn distinct_cells(&self, hs: Seq<u64>) -> bool {
        forall|i: int, j: int|
            0 <= i < hs.len() && 0 <= j < hs.len() && i != j ==> #[trigger] self.cell(hs[i])
                != #[trigger] self.cell(hs[j])
    }

    proof fn lemma_hits_none(&self, hs: Seq<u64>, bin: int, slot: int)
        requires
            forall|j: int| 0 <= j < hs.len() ==> #[trigger] self.cell(hs[j]) != (bin, slot),
        ensures
            self.hits(hs, bin, slot) == 0,
        decreases hs.len(),
    {
        if hs.len() > 0 {
            assert forall|j: int| 0 <= j < hs.drop_last().len() implies #[trigger] self.cell(
                hs.drop_last()[j],
            ) != (bin, slot) by {
                assert(hs.drop_last()[j] == hs[j]);
            }
            self.lemma_hits_none(hs.drop_last(), bin, slot);
        }
    }

    proof fn lemma_hits_at_least_one(&self, hs: Seq<u64>, j: int)
        requires
            0 <= j < hs.len(),
        ensures
            self.hits(hs, self.cell(hs[j]).0, self.cell(hs[j]).1) >= 1,
    {
        let c = self.cell(hs[j]);
        self.lemma_hits_step(hs, j, c.0, c.1);
        self.lemma_hits_prefix(hs, j + 1, c.0, c.1);
    }

    proof fn lemma_hits_distinct(&self, hs: Seq<u64>, j: int)
        requires
            self.distinct_cells(hs),
            0 <= j < hs.len(),
        ensures
            self.hits(hs, self.cell(hs[j]).0, self.cell(hs[j]).1) == 1,
        decreases hs.len(),
    {
        let c = self.cell(hs[j]);
        let d = hs.drop_last();
        if j == hs.len() - 1 {
            assert forall|k: int| 0 <= k < d.len() implies #[trigger] self.cell(d[k]) != c by {
                assert(d[k] == hs[k]);
                assert(self.cell(hs[k]) != self.cell(hs[j]));
            }
            self.lemma_hits_none(d, c.0, c.1);
        } else {
            assert(self.distinct_cells(d)) by {
                assert forall|a: int, b: int|
                    0 <= a < d.len() && 0 <= b < d.len() && a != b implies #[trigger] self.cell(
                    d[a],
                ) != #[trigger] self.cell(d[b]) by {
                    assert(d[a] == hs[a] && d[b] == hs[b]);
                }
            }
            assert(d[j] == hs[j]);
            self.lemma_hits_distinct(d, j);
            assert(self.cell(hs.last()) != c) by {
                assert(self.cell(hs[hs.len() - 1]) != self.cell(hs[j]));
            }
        }
    }

    proof fn lemma_min_shift(&self, other: &Self, hs: Seq<u64>, d: int)
        requires
            hs.len() > 0,
            forall|j: int|
                0 <= j < hs.len() ==> #[trigger] other.counter_of(hs[j]) as int
                    == self.counter_of(hs[j]) + d,
        ensures
            other.min_counter(hs) as int == self.min_counter(hs) + d,
        decreases hs.len(),
    {
        if hs.len() > 1 {
            let t = hs.drop_last();
            assert forall|j: int| 0 <= j < t.len() implies #[trigger] other.counter_of(t[j]) as int
                == self.counter_of(t[j]) + d by {
                assert(t[j] == hs[j]);
            }
            self.lemma_min_shift(other, t, d);
            assert(other.counter_of(hs.last()) as int == self.counter_of(hs.last()) + d) by {
                assert(hs.last() == hs[hs.len() - 1]);
            }
        } else {
            assert(other.counter_of(hs[0]) as int == self.counter_of(hs[0]) + d);
        }
    }

    proof fn lemma_min_is_some_counter(&self, hs: Seq<u64>)
        requires
            hs.len() > 0,
        ensures
            exists|j: int| 0 <= j < hs.len() && self.min_counter(hs) == #[trigger] self.counter_of(hs[j]),
        decreases hs.len(),
    {
        if hs.len() > 1 {
            let t = hs.drop_last();
            self.lemma_min_is_some_counter(t);
            let j = choose|j: int| 0 <= j < t.len() && self.min_counter(t) == #[trigger] self.counter_of(t[j]);
            assert(t[j] == hs[j]);
            assert(hs.last() == hs[hs.len() - 1]);
        } else {
            assert(self.min_counter(hs) == self.counter_of(hs[0]));
        }
    }

    /// After a successful `add(key)`, `contains(key)` holds.
    pub proof fn add_then_contains(before: &Self, after: &Self, key: Seq<u8>)
        requires
            before.wf(),
            after.same_shape(before),
            after.raised_from(before, before.key_hashes(key)),
        ensures
            after.all_set(after.key_hashes(key)),
    {
        let hs = before.key_hashes(key);
        assert(after.key_hashes(key) =~= hs);
        assert forall|j: int| 0 <= j < hs.len() implies #[trigger] after.counter_of(hs[j]) > 0 by {
            before.lemma_hits_at_least_one(hs, j);
            let c = before.cell(hs[j]);
            assert(before.in_range(c.0, c.1));
            assert(after.counter(c.0, c.1) == before.counter(c.0, c.1) + before.hits(hs, c.0, c.1));
        }
    }

    /// No counter of a well-formed filter exceeds `counter_max`, however
    /// often keys are added: every state reached by the operations is
    /// well-formed.
    pub proof fn counter_within_max(f: &Self, bin: int, slot: int)
        requires
            f.wf(),
            f.in_range(bin, slot),
        ensures
            f.counter(bin, slot) <= f.counter_max(),
    {
        f.lemma_slot_facts(slot);
        lemma_slot_bounded(
            f.words()[bin],
            (slot * f.bits_per_counter) as u64,
            f.bits_per_counter as u64,
            f.counter_max,
        );
    }

    /// Whatever `add(key)` returns, no counter goes down and none passes
    /// `counter_max`: counters saturate rather than wrap.
    pub proof fn add_saturates(before: &Self, after: &Self, key: Seq<u8>, r: bool)
        requires
            before.wf(),
            after.wf(),
            after.same_shape(before),
            r ==> after.raised_from(before, before.key_hashes(key)),
            !r ==> *after == *before,
        ensures
            forall|b: int, s: int| #[trigger]
                before.in_range(b, s) ==> before.counter(b, s) <= after.counter(b, s)
                    <= after.counter_max(),
    {
        assert forall|b: int, s: int| #[trigger]
            before.in_range(b, s) implies before.counter(b, s) <= after.counter(b, s)
                <= after.counter_max() by {
            Self::counter_within_max(after, b, s);
        }
    }

    /// After a successful `add(key)`, `remove(key)` succeeds.
    pub proof fn add_then_remove_succeeds(before: &Self, mid: &Self, key: Seq<u8>)
        requires
            before.wf(),
            mid.same_shape(before),
            mid.raised_from(before, before.key_hashes(key)),
        ensures
            mid.can_remove(mid.key_hashes(key)),
    {
        let hs = before.key_hashes(key);
        assert(mid.key_hashes(key) =~= hs);
        assert forall|j: int| 0 <= j < hs.len() implies #[trigger] mid.counter_of(hs[j]) >= mid.hits(
            hs,
            mid.cell(hs[j]).0,
            mid.cell(hs[j]).1,
        ) by {
            let c = before.cell(hs[j]);
            assert(before.in_range(c.0, c.1));
            assert(mid.counter(c.0, c.1) == before.counter(c.0, c.1) + before.hits(hs, c.0, c.1));
            before.lemma_hits_same_shape(mid, hs, c.0, c.1);
        }
    }

    /// Adding a key and then removing it puts every counter back at its
    /// value before the addition (the removal succeeds, by
    /// `add_then_remove_succeeds`).
    pub proof fn add_remove_round_trip(before: &Self, mid: &Self, after: &Self, key: Seq<u8>)
        requires
            before.wf(),
            mid.same_shape(before),
            mid.raised_from(before, before.key_hashes(key)),
            after.same_shape(mid),
            after.lowered_from(mid, mid.key_hashes(key)),
        ensures
            forall|b: int, s: int| #[trigger]
                before.in_range(b, s) ==> after.counter(b, s) == before.counter(b, s),
    {
        let hs = before.key_hashes(key);
        assert(mid.key_hashes(key) =~= hs);
        assert forall|b: int, s: int| #[trigger]
            before.in_range(b, s) implies after.counter(b, s) == before.counter(b, s) by {
            before.lemma_hits_same_shape(mid, hs, b, s);
            assert(mid.counter(b, s) == before.counter(b, s) + before.hits(hs, b, s));
            assert(after.counter(b, s) + mid.hits(hs, b, s) == mid.counter(b, s));
        }
    }

    proof fn lemma_min_le(&self, hs: Seq<u64>, j: int)
        requires
            0 <= j < hs.len(),
        ensures
            self.min_counter(hs) <= self.counter_of(hs[j]),
        decreases hs.len(),
    {
        if hs.len() > 1 {
            let t = hs.drop_last();
            if j < hs.len() - 1 {
                assert(t[j] == hs[j]);
                self.lemma_min_le(t, j);
            }
        }
    }

    /// For a key whose digests select distinct counters and whose `estimate`
    /// is positive, `remove` succeeds.
    pub proof fn remove_succeeds_when_estimated(f: &Self, key: Seq<u8>)
        requires
            f.wf(),
            f.distinct_cells(f.key_hashes(key)),
            f.min_counter(f.key_hashes(key)) > 0,
        ensures
            f.can_remove(f.key_hashes(key)),
    {
        let hs = f.key_hashes(key);
        assert forall|j: int| 0 <= j < hs.len() implies #[trigger] f.counter_of(hs[j]) >= f.hits(
            hs,
            f.cell(hs[j]).0,
            f.cell(hs[j]).1,
        ) by {
            f.lemma_hits_distinct(hs, j);
            f.lemma_min_le(hs, j);
        }
    }

    proof fn lemma_hits_same_shape(&self, other: &Self, hs: Seq<u64>, bin: int, slot: int)
        requires
            self.same_shape(other),
        ensures
            self.hits(hs, bin, slot) == other.hits(hs, bin, slot),
        decreases hs.len(),
    {
        if hs.len() > 0 {
            self.lemma_hits_same_shape(other, hs.drop_last(), bin, slot);
        }
    }

    /// Removing a key that `contains` reports absent fails: `remove` then
    /// returns false and leaves the counters as they were.
    pub proof fn remove_absent_fails(f: &Self, key: Seq<u8>)
        requires
            f.wf(),
            !f.all_set(f.key_hashes(key)),
        ensures
            !f.can_remove(f.key_hashes(key)),
    {
        let hs = f.key_hashes(key);
        let j = choose|j: int| 0 <= j < hs.len() && !(#[trigger] f.counter_of(hs[j]) > 0);
        f.lemma_hits_at_least_one(hs, j);
    }

    /// For a key whose digests select distinct counters, a successful `add`
    /// raises `estimate` by exactly one.
    pub proof fn estimate_counts_adds(before: &Self, after: &Self, key: Seq<u8>)
        requires
            before.wf(),
            before.distinct_cells(before.key_hashes(key)),
            after.same_shape(before),
            after.raised_from(before, before.key_hashes(key)),
        ensures
            after.min_counter(after.key_hashes(key)) == before.min_counter(before.key_hashes(key))
                + 1,
    {
        let hs = before.key_hashes(key);
        assert(after.key_hashes(key) =~= hs);
        assert forall|j: int| 0 <= j < hs.len() implies #[trigger] after.counter_of(hs[j]) as int
            == before.counter_of(hs[j]) + 1 by {
            before.lemma_hits_distinct(hs, j);
            let c = before.cell(hs[j]);
            assert(before.in_range(c.0, c.1));
            assert(after.counter(c.0, c.1) == before.counter(c.0, c.1) + before.hits(hs, c.0, c.1));
        }
        before.lemma_min_shift(after, hs, 1);
    }

    /// For a key whose digests select distinct counters, a successful
    /// `remove` lowers `estimate` by exactly one.
    pub proof fn estimate_counts_removes(before: &Self, after: &Self, key: Seq<u8>)
        requires
            before.wf(),
            before.distinct_cells(before.key_hashes(key)),
            after.same_shape(before),
            after.lowered_from(before, before.key_hashes(key)),
        ensures
            after.min_counter(after.key_hashes(key)) + 1 == before.min_counter(
                before.key_hashes(key),
            ),
    {
        let hs = before.key_hashes(key);
        assert(after.key_hashes(key) =~= hs);
        assert forall|j: int| 0 <= j < hs.len() implies #[trigger] after.counter_of(hs[j]) as int
            == before.counter_of(hs[j]) - 1 by {
            before.lemma_hits_distinct(hs, j);
            let c = before.cell(hs[j]);
            assert(before.in_range(c.0, c.1));
            assert(after.counter(c.0, c.1) + before.hits(hs, c.0, c.1) == before.counter(c.0, c.1));
        }
        before.lemma_min_shift(after, hs, -1);
    }

    /// Once `estimate` of a key has reached `counter_max`, adding it fails:
    /// the estimate never passes `counter_max`.
    pub proof fn estimate_capped(f: &Self, key: Seq<u8>)
        requires
            f.wf(),
            f.min_counter(f.key_hashes(key)) == f.counter_max(),
        ensures
            !f.can_add(f.key_hashes(key)),
    {
        let hs = f.key_hashes(key);
        f.lemma_min_is_some_counter(hs);
        let j = choose|j: int| 0 <= j < hs.len() && f.min_counter(hs) == #[trigger] f.counter_of(hs[j]);
        f.lemma_hits_at_least_one(hs, j);
    }
}

} // verus!
