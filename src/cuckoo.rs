//! Cuckoo filter: one-byte fingerprints kept in bounded bins, each key having
//! two candidate bins, with bounded eviction when both are full.
use core::marker::PhantomData;
use vstd::arithmetic::power2::pow2;
use vstd::bits::{lemma_u64_low_bits_mask_is_mod, low_bits_mask};
use vstd::multiset::Multiset;
use vstd::prelude::*;
use vstd::seq_lib::group_to_multiset_ensures;

use crate::hashing::SeededHash;

verus! {

broadcast use group_to_multiset_ensures, vstd::multiset::group_multiset_axioms;

/// The 64-bit digest of `bytes` by std's `DefaultHasher` as `new` builds it.
pub uninterp spec fn default_hash(bytes: Seq<u8>) -> u64;

/// Relies on std's `DefaultHasher::new`, `write` and `finish`: hashers built
/// by `new` all start alike, so the result depends on the bytes alone.
#[verifier::external_body]
fn default_hash_of(bytes: &[u8]) -> (r: u64)
    ensures
        r == default_hash(bytes@),
{
    let mut hasher = std::hash::DefaultHasher::new();
    std::hash::Hasher::write(&mut hasher, bytes);
    std::hash::Hasher::finish(&hasher)
}

/// Relies on rand's `thread_rng` and `RngCore::next_u32`: any `u32` may come back.
#[verifier::external_body]
fn random_u32() -> u32 {
    rand::RngCore::next_u32(&mut rand::thread_rng())
}

/// Total number of fingerprints over all bins.
pub open spec fn total_len(t: Seq<Seq<u8>>) -> nat
    decreases t.len(),
{
    if t.len() == 0 {
        0
    } else {
        total_len(t.drop_last()) + t.last().len()
    }
}

proof fn lemma_total_update(t: Seq<Seq<u8>>, i: int, s: Seq<u8>)
    requires
        0 <= i < t.len(),
    ensures
        total_len(t.update(i, s)) == total_len(t) - t[i].len() + s.len(),
    decreases t.len(),
{
    if i < t.len() - 1 {
        assert(t.update(i, s).drop_last() =~= t.drop_last().update(i, s));
        lemma_total_update(t.drop_last(), i, s);
    } else {
        assert(t.update(i, s).drop_last() =~= t.drop_last());
    }
}

proof fn lemma_total_bound(t: Seq<Seq<u8>>, cap: nat)
    requires
        forall|i: int| 0 <= i < t.len() ==> #[trigger] t[i].len() <= cap,
    ensures
        total_len(t) <= t.len() * cap,
    decreases t.len(),
{
    if t.len() > 0 {
        lemma_total_bound(t.drop_last(), cap);
        let n = t.len() as int;
        let c = cap as int;
        let rest = total_len(t.drop_last()) as int;
        assert(rest + t.last().len() <= n * c) by (nonlinear_arith)
            requires
                rest <= (n - 1) * c,
                t.last().len() <= c,
        ;
    }
}

/// All fingerprints over all bins, as a multiset.
pub open spec fn total_ms(t: Seq<Seq<u8>>) -> Multiset<u8>
    decreases t.len(),
{
    if t.len() == 0 {
        Multiset::empty()
    } else {
        total_ms(t.drop_last()).add(t.last().to_multiset())
    }
}

proof fn lemma_total_ms_update(t: Seq<Seq<u8>>, i: int, s: Seq<u8>)
    requires
        0 <= i < t.len(),
    ensures
        total_ms(t.update(i, s)).add(t[i].to_multiset()) =~= total_ms(t).add(s.to_multiset()),
    decreases t.len(),
{
    let u = t.update(i, s);
    let d = t.drop_last();
    if i < t.len() - 1 {
        assert(u.drop_last() =~= d.update(i, s));
        lemma_total_ms_update(d, i, s);
        assert(u.last() == t.last());
        assert(d[i] == t[i]);
        let a = total_ms(d.update(i, s));
        assert(total_ms(u) == a.add(t.last().to_multiset()));
        assert(total_ms(t) == total_ms(d).add(t.last().to_multiset()));
        assert(a.add(t[i].to_multiset()) =~= total_ms(d).add(s.to_multiset()));
        assert(total_ms(u).add(t[i].to_multiset()) =~= total_ms(t).add(s.to_multiset()));
    } else {
        assert(u.drop_last() =~= d);
        assert(u.last() == s);
        assert(total_ms(u) == total_ms(d).add(s.to_multiset()));
        assert(total_ms(t) == total_ms(d).add(t[i].to_multiset()));
    }
}

/// `s` without the element at `p`, the last element taking its place.
pub open spec fn swap_removed(s: Seq<u8>, p: int) -> Seq<u8> {
    s.update(p, s.last()).drop_last()
}

proof fn lemma_swap_removed_multiset(s: Seq<u8>, p: int)
    requires
        0 <= p < s.len(),
    ensures
        swap_removed(s, p).to_multiset() =~= s.to_multiset().remove(s[p]),
        swap_removed(s, p).len() == s.len() - 1,
{
    let u = s.update(p, s.last());
    vstd::seq_lib::to_multiset_update(s, p, s.last());
    vstd::seq_lib::to_multiset_remove(u, u.len() - 1);
    assert(u.remove(u.len() - 1) =~= u.drop_last());
}

/// Cuckoo filter: each key has a one-byte fingerprint and two candidate bins,
/// its primary bin and an alternate one derived from the fingerprint.
pub struct CuckooFilter<T: SeededHash> {
    bins: Vec<Vec<u8>>,
    entries_per_bin: usize,
    max_kicks: u32,
    _hasher: PhantomData<T>,
}

impl<T: SeededHash> CuckooFilter<T> {
    pub closed spec fn wf(&self) -> bool {
        &&& self.bins@.len() * self.entries_per_bin <= usize::MAX
        &&& forall|i: int|
            0 <= i < self.bins@.len() ==> #[trigger] self.bins@[i]@.len() <= self.entries_per_bin
    }

    /// The fingerprints of each bin.
    pub closed spec fn table(&self) -> Seq<Seq<u8>> {
        self.bins@.map_values(|b: Vec<u8>| b@)
    }

    pub closed spec fn entries_per_bin(&self) -> nat {
        self.entries_per_bin as nat
    }

    /// How many evictions an insertion may try.
    pub closed spec fn max_kicks(&self) -> nat {
        self.max_kicks as nat
    }

    pub open spec fn num_bins(&self) -> nat {
        self.table().len()
    }

    /// The stored fingerprints, as a multiset.
    pub open spec fn stored(&self) -> Multiset<u8> {
        total_ms(self.table())
    }

    /// Number of stored fingerprints.
    pub open spec fn occupancy(&self) -> nat {
        total_len(self.table())
    }

    /// Same bin count, bin capacity and eviction bound.
    pub open spec fn same_shape(&self, other: &Self) -> bool {
        &&& self.num_bins() == other.num_bins()
        &&& self.entries_per_bin() == other.entries_per_bin()
        &&& self.max_kicks() == other.max_kicks()
    }

    /// The bin that placement digest `h` selects.
    pub open spec fn primary(&self, h: u64) -> int {
        h as int % self.num_bins() as int
    }

    /// The bin paired with bin `i` for a fingerprint whose digest is `fh`.
    pub open spec fn alternate(&self, i: int, fh: u64) -> int {
        ((i as u64) ^ fh) as int % self.num_bins() as int
    }

    /// Whether `fp` is in bin `i`.
    pub open spec fn bin_has(&self, i: int, fp: u8) -> bool {
        self.table()[i].contains(fp)
    }

    /// The fingerprint of `key`: the low byte of its `DefaultHasher` digest.
    pub open spec fn key_fingerprint(key: Seq<u8>) -> u8 {
        default_hash(key) as u8
    }

    /// The placement digest of `key`: its digest under seed 0.
    pub open spec fn key_digest(key: Seq<u8>) -> u64 {
        T::spec_digest(0, key)
    }

    /// The digest of a fingerprint, from which its alternate bin is derived.
    pub open spec fn fingerprint_digest(fp: u8) -> u64 {
        T::spec_digest(0, seq![fp])
    }

    /// The first candidate bin of `key`.
    pub open spec fn key_primary(&self, key: Seq<u8>) -> int {
        self.primary(Self::key_digest(key))
    }

    /// The second candidate bin of `key`.
    pub open spec fn key_alternate(&self, key: Seq<u8>) -> int {
        self.alternate(
            self.key_primary(key),
            Self::fingerprint_digest(Self::key_fingerprint(key)),
        )
    }

    /// Whether the fingerprint of `key` is in one of its candidate bins.
    pub open spec fn holds_key(&self, key: Seq<u8>) -> bool {
        self.has_in_pair(
            Self::key_fingerprint(key),
            Self::key_digest(key),
            Self::fingerprint_digest(Self::key_fingerprint(key)),
        )
    }

    /// Whether the table has bins and `fp` is in the bin that `h` selects or
    /// in the bin paired with it for a fingerprint digest `fh`.
    pub open spec fn has_in_pair(&self, fp: u8, h: u64, fh: u64) -> bool {
        self.num_bins() > 0 && (self.bin_has(self.primary(h), fp) || self.bin_has(
            self.alternate(self.primary(h), fh),
            fp,
        ))
    }

    /// `self` is `prev` with one occurrence of `fp` taken out of bin `i`.
    pub open spec fn took_one(&self, prev: &Self, i: int, fp: u8) -> bool {
        &&& self.table()[i].to_multiset() == prev.table()[i].to_multiset().remove(fp)
        &&& self.table() == prev.table().update(i, self.table()[i])
    }

    /// A filter of `num_bins` empty bins.
    pub fn new(num_bins: usize) -> (r: Self)
        requires
            num_bins * 4 <= usize::MAX,
        ensures
            r.wf(),
            r.num_bins() == num_bins,
            r.entries_per_bin() == 4,
            r.max_kicks() == 100,
            r.occupancy() == 0,
            forall|i: int| 0 <= i < num_bins ==> #[trigger] r.table()[i].len() == 0,
    {
        Self::with_all_the_levers(num_bins, 4, 100)
    }

    /// A filter of `num_bins` empty bins holding `entries_per_bin`
    /// fingerprints each, whose insertions try at most `max_kicks` bins.
    pub fn with_all_the_levers(num_bins: usize, entries_per_bin: usize, max_kicks: u32) -> (r: Self)
        requires
            num_bins * entries_per_bin <= usize::MAX,
        ensures
            r.wf(),
            r.num_bins() == num_bins,
            r.entries_per_bin() == entries_per_bin,
            r.max_kicks() == max_kicks,
            r.occupancy() == 0,
            forall|i: int| 0 <= i < num_bins ==> #[trigger] r.table()[i].len() == 0,
    {
        let mut bins: Vec<Vec<u8>> = Vec::new();
        let mut k: usize = 0;
        while k < num_bins
            invariant
                k <= num_bins,
                bins@.len() == k,
                forall|i: int| 0 <= i < k ==> #[trigger] bins@[i]@.len() == 0,
            decreases num_bins - k,
        {
            bins.push(Vec::with_capacity(entries_per_bin));
            k = k + 1;
        }
        let r = CuckooFilter { bins, entries_per_bin, max_kicks, _hasher: PhantomData };
        proof {
            lemma_zero_total(r.table());
        }
        r
    }

    proof fn lemma_table_update(&self, prev: &Self, i: int, b: Seq<u8>)
        requires
            prev.wf(),
            0 <= i < prev.num_bins(),
            self.bins@ == prev.bins@.update(i, self.bins@[i]),
            self.bins@[i]@ == b,
        ensures
            self.table() =~= prev.table().update(i, b),
            total_len(self.table()) == total_len(prev.table()) - prev.table()[i].len() + b.len(),
    {
        assert(self.table() =~= prev.table().update(i, b));
        lemma_total_update(prev.table(), i, b);
    }

    /// Moves bin `i` out of the table, leaving an empty bin, for the caller
    /// to change and put back.
    fn take_bin(&mut self, i: usize) -> (b: Vec<u8>)
        requires
            i < old(self).bins@.len(),
        ensures
            b@ == old(self).table()[i as int],
            final(self).bins@ == old(self).bins@.update(i as int, final(self).bins@[i as int]),
            final(self).entries_per_bin == old(self).entries_per_bin,
            final(self).max_kicks == old(self).max_kicks,
    {
        let mut b: Vec<u8> = Vec::new();
        self.bins.set_and_swap(i, &mut b);
        b
    }

    /// Appends `fp` to bin `i`, which has room.
    fn push_to_bin(&mut self, i: usize, fp: u8)
        requires
            old(self).wf(),
            i < old(self).num_bins(),
            old(self).table()[i as int].len() < old(self).entries_per_bin(),
        ensures
            final(self).wf(),
            final(self).same_shape(old(self)),
            final(self).table() == old(self).table().update(
                i as int,
                old(self).table()[i as int].push(fp),
            ),
            final(self).occupancy() == old(self).occupancy() + 1,
    {
        let mut b = self.take_bin(i);
        b.push(fp);
        self.bins.set(i, b);
        proof {
            assert(self.bins@ =~= old(self).bins@.update(i as int, self.bins@[i as int]));
            self.lemma_table_update(old(self), i as int, old(self).table()[i as int].push(fp));
        }
    }

    /// Swaps `fp` into bin `i` for the fingerprint at position `p`, which is returned.
    fn swap_into_bin(&mut self, i: usize, p: usize, fp: u8) -> (kicked: u8)
        requires
            old(self).wf(),
            i < old(self).num_bins(),
            p < old(self).table()[i as int].len(),
        ensures
            final(self).wf(),
            final(self).same_shape(old(self)),
            kicked == old(self).table()[i as int][p as int],
            final(self).table() == old(self).table().update(
                i as int,
                swap_removed(old(self).table()[i as int], p as int).push(fp),
            ),
            final(self).occupancy() == old(self).occupancy(),
    {
        let mut b = self.take_bin(i);
        let kicked = b.swap_remove(p);
        b.push(fp);
        self.bins.set(i, b);
        proof {
            assert(self.bins@ =~= old(self).bins@.update(i as int, self.bins@[i as int]));
            self.lemma_table_update(
                old(self),
                i as int,
                swap_removed(old(self).table()[i as int], p as int).push(fp),
            );
        }
        kicked
    }

    /// Takes one occurrence of `fp` out of bin `i`, if it holds one.
    fn take_from_bin(&mut self, i: usize, fp: u8) -> (r: bool)
        requires
            old(self).wf(),
            i < old(self).num_bins(),
        ensures
            final(self).wf(),
            final(self).same_shape(old(self)),
            r == old(self).bin_has(i as int, fp),
            r ==> final(self).took_one(old(self), i as int, fp),
            r ==> final(self).occupancy() + 1 == old(self).occupancy(),
            r ==> final(self).stored() == old(self).stored().remove(fp),
            !r ==> final(self).table() == old(self).table(),
    {
        match position(&self.bins[i], fp) {
            None => false,
            Some(p) => {
                let ghost old_bin = self.table()[i as int];
                let mut b = self.take_bin(i);
                b.swap_remove(p);
                self.bins.set(i, b);
                proof {
                    lemma_swap_removed_multiset(old_bin, p as int);
                    assert(self.bins@ =~= old(self).bins@.update(i as int, self.bins@[i as int]));
                    self.lemma_table_update(old(self), i as int, swap_removed(old_bin, p as int));
                    let bm = old_bin.to_multiset();
                    let m_old = old(self).stored();
                    let m_new = self.stored();
                    lemma_total_ms_update(old(self).table(), i as int, swap_removed(old_bin, p as int));
                    assert(m_new.add(bm) =~= m_old.add(bm.remove(fp)));
                    assert(bm.count(fp) > 0) by {
                        assert(old_bin[p as int] == fp);
                    }
                    assert forall|x: u8| m_new.count(x) == m_old.remove(fp).count(x) by {
                        assert(m_new.add(bm).count(x) == m_old.add(bm.remove(fp)).count(x));
                    }
                    assert(m_new =~= m_old.remove(fp));
                }
                true
            },
        }
    }

    /// Whether `fp` is in the bin that `h` selects or in the bin paired with
    /// it for a fingerprint digest `fh`.
    pub fn contains_fingerprint(&self, fp: u8, h: u64, fh: u64) -> (r: bool)
        requires
            self.wf(),
        ensures
            r == self.has_in_pair(fp, h, fh),
    {
        let n = self.bins.len() as u64;
        if n == 0 {
            return false;
        }
        let i = (h % n) as usize;
        if position(&self.bins[i], fp).is_some() {
            return true;
        }
        let j = (((i as u64) ^ fh) % n) as usize;
        position(&self.bins[j], fp).is_some()
    }

    /// Takes one occurrence of `fp` out of the bin that `h` selects, or else
    /// out of the bin paired with it for a fingerprint digest `fh`; false,
    /// with nothing changed, where neither holds `fp`.
    pub fn remove_fingerprint(&mut self, fp: u8, h: u64, fh: u64) -> (r: bool)
        requires
            old(self).wf(),
        ensures
            final(self).wf(),
            final(self).same_shape(old(self)),
            r == old(self).has_in_pair(fp, h, fh),
            r && old(self).bin_has(old(self).primary(h), fp) ==> final(self).took_one(
                old(self),
                old(self).primary(h),
                fp,
            ),
            !old(self).bin_has(old(self).primary(h), fp) && r ==> final(self).took_one(
                old(self),
                old(self).alternate(old(self).primary(h), fh),
                fp,
            ),
            r ==> final(self).occupancy() + 1 == old(self).occupancy(),
            r ==> final(self).stored() == old(self).stored().remove(fp),
            !r ==> final(self).table() == old(self).table(),
    {
        let n = self.bins.len() as u64;
        if n == 0 {
            return false;
        }
        let i = (h % n) as usize;
        if self.take_from_bin(i, fp) {
            return true;
        }
        let j = (((i as u64) ^ fh) % n) as usize;
        self.take_from_bin(j, fp)
    }

    /// The insertion of `g` into bin `i` of table `t` at step `attempt` of
    /// at most `max_kicks`: stored where the bin has room; else, from the
    /// second step on, swapped for the resident at position `draws[attempt]
    /// mod len`, which is carried on; then tried again in the paired bin of
    /// the fingerprint in hand. The result is whether it was stored, and the
    /// final table.
    pub open spec fn run(
        &self,
        t: Seq<Seq<u8>>,
        g: u8,
        i: int,
        attempt: nat,
        draws: Seq<u32>,
    ) -> (bool, Seq<Seq<u8>>)
        decreases self.max_kicks() - attempt,
    {
        if attempt >= self.max_kicks() {
            (false, t)
        } else if t[i].len() < self.entries_per_bin() {
            (true, t.update(i, t[i].push(g)))
        } else if attempt == 0 {
            self.run(t, g, self.alternate(i, Self::fingerprint_digest(g)), attempt + 1, draws)
        } else {
            let p = draws[attempt as int] as int % t[i].len() as int;
            let kicked = t[i][p];
            self.run(
                t.update(i, swap_removed(t[i], p).push(g)),
                kicked,
                self.alternate(i, Self::fingerprint_digest(kicked)),
                attempt + 1,
                draws,
            )
        }
    }

    /// What holds of `self` after an insertion of `fp` with placement digest
    /// `h` into `prev` returned `r`, whatever was drawn for evictions.
    pub open spec fn add_outcome(&self, prev: &Self, fp: u8, h: u64, r: bool) -> bool {
        let p = prev.primary(h);
        let a = prev.alternate(p, Self::fingerprint_digest(fp));
        let can_try = prev.max_kicks() > 0 && prev.num_bins() > 0 && prev.entries_per_bin() > 0;
        &&& self.wf()
        &&& self.same_shape(prev)
        &&& r ==> self.stored() == prev.stored().insert(fp)
        &&& r ==> self.occupancy() == prev.occupancy() + 1
        &&& !r ==> self.occupancy() == prev.occupancy()
        &&& !r ==> exists|d: u8| #[trigger] self.stored().insert(d) == prev.stored().insert(fp)
        &&& !can_try ==> !r && self.table() == prev.table()
        &&& prev.max_kicks() <= 1 && !r ==> self.table() == prev.table()
        &&& can_try && prev.table()[p].len() < prev.entries_per_bin() ==> r && self.table()
            == prev.table().update(p, prev.table()[p].push(fp))
        &&& can_try && prev.max_kicks() > 1 && prev.table()[p].len() >= prev.entries_per_bin()
            && prev.table()[a].len() < prev.entries_per_bin() ==> r && self.table()
            == prev.table().update(a, prev.table()[a].push(fp))
    }

    /// Stores `fp` in the bin that `h` selects, or failing that in its paired
    /// bin; when both are full, evicts the resident at position `draws[k] mod
    /// len` of the bin in hand at step `k` and carries it on to its own paired
    /// bin, trying at most `max_kicks` bins in all (see `run`). False when no
    /// bin had room: the evictions made stay, and the fingerprint carried last
    /// is dropped. A filter without bins or bin capacity stores nothing.
    pub fn add_with_draws(&mut self, fp: u8, h: u64, draws: &[u32]) -> (r: bool)
        requires
            old(self).wf(),
            draws@.len() >= old(self).max_kicks(),
        ensures
            final(self).add_outcome(old(self), fp, h, r),
            old(self).num_bins() > 0 && old(self).entries_per_bin() > 0 ==> (r, final(self).table())
                == old(self).run(old(self).table(), fp, old(self).primary(h), 0, draws@),
    {
        let n = self.bins.len() as u64;
        if n == 0 || self.entries_per_bin == 0 {
            proof {
                assert(self.stored().insert(fp) == old(self).stored().insert(fp));
            }
            return false;
        }
        let mut fingerprint = fp;
        let mut i = (h % n) as usize;
        let mut attempt: u32 = 0;
        while attempt < self.max_kicks
            invariant
                self.wf(),
                self.same_shape(old(self)),
                n == self.bins@.len(),
                0 < n <= usize::MAX,
                0 < self.entries_per_bin,
                draws@.len() >= old(self).max_kicks(),
                attempt <= self.max_kicks,
                i < n,
                self.occupancy() == old(self).occupancy(),
                self.stored().insert(fingerprint) == old(self).stored().insert(fp),
                old(self).run(self.table(), fingerprint, i as int, attempt as nat, draws@)
                    == old(self).run(old(self).table(), fp, old(self).primary(h), 0, draws@),
                attempt == 0 ==> self.table() == old(self).table() && i == old(self).primary(h)
                    && fingerprint == fp,
                attempt == 1 ==> self.table() == old(self).table() && i == old(self).alternate(
                    old(self).primary(h),
                    Self::fingerprint_digest(fp),
                ) && fingerprint == fp,
                attempt >= 1 ==> old(self).table()[old(self).primary(h)].len()
                    >= old(self).entries_per_bin(),
                attempt >= 2 ==> old(self).table()[old(self).alternate(
                    old(self).primary(h),
                    Self::fingerprint_digest(fp),
                )].len() >= old(self).entries_per_bin(),
            decreases self.max_kicks - attempt,
        {
            let ghost t0 = self.table();
            if self.bins[i].len() < self.entries_per_bin {
                self.push_to_bin(i, fingerprint);
                proof {
                    lemma_total_ms_update(t0, i as int, t0[i as int].push(fingerprint));
                    assert(t0[i as int].push(fingerprint).to_multiset() =~= t0[i as int].to_multiset().insert(fingerprint));
                    let b = t0[i as int].to_multiset();
                    let m_new = total_ms(self.table());
                    assert(m_new.add(b) =~= total_ms(t0).add(b.insert(fingerprint)));
                    assert(m_new =~= total_ms(t0).insert(fingerprint)) by {
                        assert forall|x: u8| m_new.count(x) == total_ms(t0).insert(fingerprint).count(x) by {
                            assert(m_new.add(b).count(x) == total_ms(t0).add(b.insert(fingerprint)).count(x));
                        }
                    }
                    assert(self.stored() =~= old(self).stored().insert(fp));
                }
                return true;
            }
            if attempt != 0 {
                let ghost g = fingerprint;
                let len = self.bins[i].len();
                let kick_idx = (draws[attempt as usize] as usize) % len;
                fingerprint = self.swap_into_bin(i, kick_idx, fingerprint);
                proof {
                    let b = t0[i as int];
                    let nb = swap_removed(b, kick_idx as int).push(g);
                    lemma_swap_removed_multiset(b, kick_idx as int);
                    lemma_total_ms_update(t0, i as int, nb);
                    assert(nb.to_multiset() =~= b.to_multiset().remove(fingerprint).insert(g));
                    assert(b.to_multiset().count(fingerprint) > 0) by {
                        assert(b[kick_idx as int] == fingerprint);
                    }
                    let bm = b.to_multiset();
                    let m_new = total_ms(self.table());
                    assert(m_new.add(bm) =~= total_ms(t0).add(bm.remove(fingerprint).insert(g)));
                    assert forall|x: u8| m_new.insert(fingerprint).count(x) == total_ms(t0).insert(g).count(x) by {
                        assert(m_new.add(bm).count(x) == total_ms(t0).add(bm.remove(fingerprint).insert(g)).count(x));
                    }
                    assert(self.stored().insert(fingerprint) =~= total_ms(t0).insert(g));
                }
            }
            let one = vec![fingerprint];
            let fh = T::digest(0, one.as_slice());
            proof {
                assert(one@ =~= seq![fingerprint]);
            }
            let ghost prev_i = i;
            let next = ((i as u64) ^ fh) % n;
            i = next as usize;
            proof {
                assert(i as int == ((prev_i as u64) ^ fh) as int % (n as int));
                if attempt == 0 {
                    assert(fh == Self::fingerprint_digest(fp));
                    assert(prev_i as int == old(self).primary(h));
                }
            }
            attempt = attempt + 1;
        }
        proof {
            assert(self.stored().insert(fingerprint) == old(self).stored().insert(fp));
            assert(attempt == old(self).max_kicks());
            assert(old(self).max_kicks() <= 1 ==> self.table() == old(self).table());
        }
        false
    }

    /// Stores `fp` as `add_with_draws` does, with evictions drawn at random.
    pub fn add_fingerprint(&mut self, fp: u8, h: u64) -> (r: bool)
        requires
            old(self).wf(),
        ensures
            final(self).add_outcome(old(self), fp, h, r),
    {
        let mut draws: Vec<u32> = Vec::new();
        let mut k: u32 = 0;
        while k < self.max_kicks
            invariant
                draws@.len() == k,
                k <= self.max_kicks,
            decreases self.max_kicks - k,
        {
            draws.push(random_u32());
            k = k + 1;
        }
        self.add_with_draws(fp, h, draws.as_slice())
    }

    /// The fingerprint of `key`.
    fn fingerprint(bytes: &[u8]) -> (r: u8)
        ensures
            r == Self::key_fingerprint(bytes@),
    {
        default_hash_of(bytes) as u8
    }

    /// The digest of `bytes` under seed 0.
    fn hash(bytes: &[u8]) -> (r: u64)
        requires
            bytes@.len() <= i32::MAX,
        ensures
            r == T::spec_digest(0, bytes@),
    {
        T::digest(0, bytes)
    }

    /// The digest of fingerprint `fp`.
    fn hash_fingerprint(fp: u8) -> (r: u64)
        ensures
            r == Self::fingerprint_digest(fp),
    {
        let one = vec![fp];
        proof {
            assert(one@ =~= seq![fp]);
        }
        Self::hash(one.as_slice())
    }

    /// Adds `key`'s fingerprint; see `add_fingerprint` and `add_outcome`. It
    /// lands in the first candidate bin of `key` where that has room, else in
    /// the second where that has room (given enough kicks allowed).
    pub fn add(&mut self, key: &[u8]) -> (r: bool)
        requires
            old(self).wf(),
            key@.len() <= i32::MAX,
        ensures
            final(self).add_outcome(
                old(self),
                Self::key_fingerprint(key@),
                Self::key_digest(key@),
                r,
            ),
    {
        let fp = Self::fingerprint(key);
        let h = Self::hash(key);
        self.add_fingerprint(fp, h)
    }

    /// Removes one occurrence of `key`'s fingerprint, from its first
    /// candidate bin if there, else from its second; false, with nothing
    /// changed, where neither holds it.
    pub fn remove(&mut self, key: &[u8]) -> (r: bool)
        requires
            old(self).wf(),
            key@.len() <= i32::MAX,
        ensures
            final(self).wf(),
            final(self).same_shape(old(self)),
            r == old(self).holds_key(key@),
            r && old(self).bin_has(old(self).key_primary(key@), Self::key_fingerprint(key@))
                ==> final(self).took_one(
                old(self),
                old(self).key_primary(key@),
                Self::key_fingerprint(key@),
            ),
            !old(self).bin_has(old(self).key_primary(key@), Self::key_fingerprint(key@)) && r
                ==> final(self).took_one(
                old(self),
                old(self).key_alternate(key@),
                Self::key_fingerprint(key@),
            ),
            r ==> final(self).occupancy() + 1 == old(self).occupancy(),
            r ==> final(self).stored() == old(self).stored().remove(Self::key_fingerprint(key@)),
            !r ==> final(self).table() == old(self).table(),
    {
        let fp = Self::fingerprint(key);
        let h = Self::hash(key);
        let fh = Self::hash_fingerprint(fp);
        self.remove_fingerprint(fp, h, fh)
    }

    /// Whether `key`'s fingerprint is in one of its candidate bins.
    pub fn contains(&self, key: &[u8]) -> (r: bool)
        requires
            self.wf(),
            key@.len() <= i32::MAX,
        ensures
            r == self.holds_key(key@),
    {
        let fp = Self::fingerprint(key);
        let h = Self::hash(key);
        let fh = Self::hash_fingerprint(fp);
        self.contains_fingerprint(fp, h, fh)
    }

    /// Number of stored fingerprints.
    pub fn len(&self) -> (r: usize)
        requires
            self.wf(),
        ensures
            r == self.occupancy(),
    {
        let mut total: usize = 0;
        let mut i: usize = 0;
        proof {
            lemma_total_bound(self.table(), self.entries_per_bin());
        }
        while i < self.bins.len()
            invariant
                self.wf(),
                i <= self.bins@.len(),
                total == total_len(self.table().take(i as int)),
            decreases self.bins@.len() - i,
        {
            proof {
                let t = self.table().take(i + 1);
                assert(t.drop_last() =~= self.table().take(i as int));
                lemma_total_bound(t, self.entries_per_bin());
                assert(t.len() * self.entries_per_bin() <= self.bins@.len() * self.entries_per_bin()) by (nonlinear_arith)
                    requires t.len() <= self.bins@.len();
            }
            total = total + self.bins[i].len();
            i = i + 1;
        }
        proof {
            assert(self.table().take(i as int) =~= self.table());
        }
        total
    }

    /// Every stored fingerprint, bin by bin.
    pub fn fingerprints(&self) -> (r: Vec<u8>)
        ensures
            r@ == self.table().flatten(),
    {
        let mut r: Vec<u8> = Vec::new();
        let mut i: usize = 0;
        while i < self.bins.len()
            invariant
                i <= self.bins@.len(),
                r@ == self.table().take(i as int).flatten(),
            decreases self.bins@.len() - i,
        {
            let bin = &self.bins[i];
            let mut k: usize = 0;
            let ghost start = r@;
            while k < bin.len()
                invariant
                    i < self.bins@.len(),
                    bin == &self.bins@[i as int],
                    k <= bin@.len(),
                    r@ == start + bin@.take(k as int),
                decreases bin@.len() - k,
            {
                r.push(bin[k]);
                proof {
                    assert(r@ =~= start + bin@.take(k + 1));
                }
                k = k + 1;
            }
            proof {
                assert(bin@.take(k as int) =~= bin@);
                assert(self.table().take(i + 1) =~= self.table().take(i as int).push(bin@));
                self.table().take(i as int).lemma_flatten_push(bin@);
            }
            i = i + 1;
        }
        proof {
            assert(self.table().take(i as int) =~= self.table());
        }
        r
    }

    /// When `add(key)` stores the key's fingerprint in one of its candidate
    /// bins (it does whenever one of them has room), `contains(key)` holds
    /// afterwards.
    pub proof fn add_then_contains(before: &Self, after: &Self, key: Seq<u8>, i: int)
        requires
            before.wf(),
            before.num_bins() > 0,
            i == before.key_primary(key) || i == before.key_alternate(key),
            after.table() == before.table().update(
                i,
                before.table()[i].push(Self::key_fingerprint(key)),
            ),
        ensures
            after.holds_key(key),
    {
        let fp = Self::key_fingerprint(key);
        let p = before.key_primary(key);
        assert(0 <= p < before.num_bins());
        assert(0 <= before.key_alternate(key) < before.num_bins());
        assert(after.table()[i].last() == fp);
        assert(after.table()[i][after.table()[i].len() - 1] == fp);
    }

    /// Adding a key whose fingerprint is already stored stores it once more:
    /// duplicates are kept, not merged.
    pub proof fn add_keeps_duplicates(before: &Self, after: &Self, key: Seq<u8>, i: int)
        requires
            before.wf(),
            0 <= i < before.num_bins(),
            after.table() == before.table().update(
                i,
                before.table()[i].push(Self::key_fingerprint(key)),
            ),
        ensures
            after.table()[i].to_multiset().count(Self::key_fingerprint(key))
                == before.table()[i].to_multiset().count(Self::key_fingerprint(key)) + 1,
            after.occupancy() == before.occupancy() + 1,
    {
        let fp = Self::key_fingerprint(key);
        vstd::seq_lib::to_multiset_build(before.table()[i], fp);
        lemma_total_update(before.table(), i, before.table()[i].push(fp));
    }

    /// With a power-of-two bin count the pairing of bins is symmetric: the
    /// bin paired with bin `i`'s partner, for the same fingerprint digest, is
    /// `i` again, so an evicted fingerprint can always move back.
    pub proof fn alternate_pairs_up(f: &Self, k: nat, i: int, fh: u64)
        requires
            k < 64,
            f.num_bins() == pow2(k),
            0 <= i < f.num_bins(),
        ensures
            0 <= f.alternate(i, fh) < f.num_bins(),
            f.alternate(f.alternate(i, fh), fh) == i,
    {
        vstd::arithmetic::power2::lemma2_to64();
        vstd::arithmetic::power2::lemma_pow2_strictly_increases(k, 64);
        vstd::arithmetic::power2::lemma_pow2_pos(k);
        let n = pow2(k) as u64;
        let m = low_bits_mask(k) as u64;
        let x = i as u64;
        let y = (x ^ fh) % n;
        lemma_u64_low_bits_mask_is_mod(x ^ fh, k);
        lemma_u64_low_bits_mask_is_mod(y ^ fh, k);
        lemma_u64_low_bits_mask_is_mod(x, k);
        assert(((((x ^ fh) & m) ^ fh) & m) == x & m) by (bit_vector);
        assert(x as int == i && n as int == pow2(k));
        vstd::arithmetic::div_mod::lemma_small_mod(x as nat, n as nat);
        assert(x % n == x);
    }

    /// Every bin holds at most `entries_per_bin` fingerprints, so the table
    /// holds at most `num_bins * entries_per_bin`.
    pub proof fn bins_within_capacity(f: &Self)
        requires
            f.wf(),
        ensures
            forall|i: int| 0 <= i < f.num_bins() ==> #[trigger] f.table()[i].len() <= f.entries_per_bin(),
            f.occupancy() <= f.num_bins() * f.entries_per_bin(),
    {
        assert forall|i: int| 0 <= i < f.num_bins() implies #[trigger] f.table()[i].len() <= f.entries_per_bin() by {
            assert(f.table()[i] == f.bins@[i]@);
        }
        lemma_total_bound(f.table(), f.entries_per_bin());
    }

    /// Two successful insertions of the same key store its fingerprint twice,
    /// whether or not evictions took place: duplicates are kept, not merged.
    pub proof fn add_twice_stores_twice(
        before: &Self,
        mid: &Self,
        after: &Self,
        key: Seq<u8>,
    )
        requires
            mid.add_outcome(before, Self::key_fingerprint(key), Self::key_digest(key), true),
            after.add_outcome(mid, Self::key_fingerprint(key), Self::key_digest(key), true),
        ensures
            after.stored() == before.stored().insert(Self::key_fingerprint(key)).insert(
                Self::key_fingerprint(key),
            ),
            after.stored().count(Self::key_fingerprint(key)) == before.stored().count(
                Self::key_fingerprint(key),
            ) + 2,
            after.occupancy() == before.occupancy() + 2,
    {
    }

    /// A successful insertion followed by a successful removal of the same
    /// key leaves the stored fingerprints as they were, whether or not
    /// evictions moved them about.
    pub proof fn add_remove_restores_stored(before: &Self, mid: &Self, after: &Self, key: Seq<u8>)
        requires
            mid.add_outcome(before, Self::key_fingerprint(key), Self::key_digest(key), true),
            after.stored() == mid.stored().remove(Self::key_fingerprint(key)),
        ensures
            after.stored() =~= before.stored(),
    {
    }

    /// Each successful `remove` takes out exactly one stored fingerprint, so
    /// the number of stored fingerprints drops by one.
    pub proof fn remove_takes_one(before: &Self, after: &Self, i: int, fp: u8)
        requires
            before.wf(),
            0 <= i < before.num_bins(),
            before.bin_has(i, fp),
            after.took_one(before, i, fp),
        ensures
            after.table()[i].to_multiset().count(fp) + 1 == before.table()[i].to_multiset().count(fp),
            after.table()[i].len() + 1 == before.table()[i].len(),
    {
        let b = before.table()[i];
        assert(b.to_multiset().count(fp) > 0);
        vstd::seq_lib::to_multiset_len(b);
        vstd::seq_lib::to_multiset_len(after.table()[i]);
    }
}

/// The first position of `fp` in `bin`, if any.
fn position(bin: &Vec<u8>, fp: u8) -> (r: Option<usize>)
    ensures
        r is None <==> !bin@.contains(fp),
        r matches Some(p) ==> p < bin@.len() && bin@[p as int] == fp,
{
    let mut p: usize = 0;
    while p < bin.len()
        invariant
            p <= bin@.len(),
            forall|q: int| 0 <= q < p ==> bin@[q] != fp,
        decreases bin@.len() - p,
    {
        if bin[p] == fp {
            return Some(p);
        }
        p = p + 1;
    }
    None
}

proof fn lemma_zero_total(t: Seq<Seq<u8>>)
    requires
        forall|i: int| 0 <= i < t.len() ==> #[trigger] t[i].len() == 0,
    ensures
        total_len(t) == 0,
    decreases t.len(),
{
    if t.len() > 0 {
        lemma_zero_total(t.drop_last());
    }
}

} // verus!
