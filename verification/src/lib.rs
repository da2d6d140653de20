//! Cuckoo filter: an approximate-membership structure that supports insertion,
//! lookup and deletion, storing one-byte fingerprints in a table of small buckets.
//!
//! An item is hashed to 32 bits. The hash is its first bucket index, and its
//! most significant byte is its fingerprint (`1` where that byte is `0`, which
//! marks an empty slot). The second index is the first, exclusive-or the hash
//! of the fingerprint, so each of the two is the alternate of the other and a
//! stored fingerprint can be moved between its two buckets without the item.
//! Indices are reduced modulo the number of buckets, a power of two.
//!
//! A filter is described by three values: [`CuckooFilter::table`], the
//! fingerprints of each bucket; [`CuckooFilter::spec_len`], their count; and
//! [`CuckooFilter::alt_hashes`], the hash of each fingerprint value under the
//! filter's hasher, taken once when the filter is made. Every operation keeps
//! [`CuckooFilter::wf`]. Where both buckets of a fingerprint are full, room is
//! made by moving stored fingerprints to their alternate buckets; which ones
//! is drawn from a generator that the filter owns and that starts from
//! [`DEFAULT_SEED`], so the same operations always give the same table.
//!
//! What an item hashes to is up to its `Hash` impl and the hasher, so the
//! operations on items say what holds for the value that was derived, and the
//! operations on a derived value ([`util::FaI`]) say exactly what they do.
//! [`laws`] states how the operations fit together.

pub mod bucket;
pub mod codec;
pub mod index;
pub mod laws;
pub mod rng;
pub mod table;
pub mod util;

use crate::bucket::{first_index, swap_removed, Bucket, Fingerprint, BUCKET_SIZE};
use crate::codec::{
    decoded, encoded, lemma_decoded_wf, lemma_stored, recoverable, slot_byte, stored, well_shaped,
    window,
};
use crate::index::{
    alt_bucket, bucket_count_for, is_power_of_two, lemma_alt_bucket_of_index,
    lemma_bucket_count_for, lemma_next_power_of_two, lemma_next_power_of_two_least,
    lemma_pow2_gap, lemma_power_of_two_63, next_power_of_two, round_up_to_power_of_two,
};
use crate::rng::{random_below, random_bit, seeded};
use crate::table::{
    exhausted, lemma_relocated_push, moved, relocated, settled, slots_in_range, starting, stuck,
};
use crate::table::{
    gained, grew_at, lemma_first_index_holds, lemma_gained_by_push, lemma_gained_by_remove,
    lemma_reachable_contains, lemma_total_len_bound, lemma_total_len_empty,
    lemma_total_len_update, lemma_traded_settles, lemma_traded_start, lemma_traded_step,
    reachable, same_sizes, table_wf, total_len, traded,
};
use crate::util::{alt_index, fingerprint_hash, get_hash, spec_alt_index, FaI};
use std::collections::hash_map::DefaultHasher;
use std::hash::{Hash, Hasher};
use rand::rngs::StdRng;
use std::marker::PhantomData;
use vstd::arithmetic::power2::is_pow2;
use vstd::layout::size_of;
use vstd::prelude::*;

verus! {

/// If insertion fails, relocation is retried this many times.
pub const MAX_REBUCKET: u32 = 500;

/// The default requested capacity: one below two to the power of twenty.
pub const DEFAULT_CAPACITY: u64 = 0xf_ffff;

/// Number of fingerprint values, and so of entries in the table of their hashes.
pub const FINGERPRINT_VALUES: usize = 256;

/// The seed of the generator of a filter that has not been given another.
pub const DEFAULT_SEED: u64 = 0;

/// The one way in which the filter can fail.
#[derive(Debug, PartialEq, Eq, Structural, Clone, Copy)]
pub enum CuckooError {
    NotEnoughSpace,
}

impl CuckooError {
    /// The error's name.
    pub fn name(&self) -> (s: String)
        ensures
            s@ == "NotEnoughSpace"@,
    {
        "NotEnoughSpace".to_owned()
    }

    /// What the error means.
    pub fn description(&self) -> (s: &'static str)
        ensures
            s@ == "Not enough space to store this item, rebucketing failed."@,
    {
        "Not enough space to store this item, rebucketing failed."
    }
}

/// A cuckoo filter over the hasher `H`: a table of buckets of fingerprints,
/// the count of stored fingerprints, the hash of every fingerprint value
/// under `H`, taken once when the filter is made, and the generator from
/// which eviction draws its choices.
pub struct CuckooFilter<H> {
    buckets: Vec<Bucket>,
    len: usize,
    alts: Vec<usize>,
    rng: StdRng,
    _hasher: PhantomData<H>,
}

impl<H> CuckooFilter<H> {
    /// The buckets' contents.
    pub closed spec fn table(&self) -> Seq<Seq<Fingerprint>> {
        self.buckets@.map_values(|b: Bucket| b@)
    }

    /// The count of stored fingerprints that the filter keeps.
    pub closed spec fn spec_len(&self) -> usize {
        self.len
    }

    /// The hash of each fingerprint value, by which alternates are found.
    pub closed spec fn alt_hashes(&self) -> Seq<usize> {
        self.alts@
    }

    /// Number of buckets.
    pub open spec fn bucket_count(&self) -> usize {
        self.table().len() as usize
    }

    /// The filter's invariant: the table is well formed, the count is the
    /// number of fingerprints in it, and every fingerprint value has its hash.
    pub open spec fn wf(&self) -> bool {
        &&& table_wf(self.table())
        &&& self.spec_len() == total_len(self.table())
        &&& self.alt_hashes().len() == FINGERPRINT_VALUES
    }

    /// The bucket into which index `i` falls.
    pub open spec fn bucket_of(&self, i: usize) -> int {
        i as int % self.table().len() as int
    }

    /// The alternate of index `i` for the fingerprint.
    pub open spec fn spec_alt(&self, fp: Fingerprint, i: usize) -> usize {
        spec_alt_index(self.alt_hashes()[fp.0 as int], i)
    }

    /// Whether the filter itself would derive this value: the fingerprint is
    /// valid and the second index is the alternate of the first.
    pub open spec fn derives(&self, fai: FaI) -> bool {
        &&& fai.fp.is_valid()
        &&& fai.i2 == self.spec_alt(fai.fp, fai.i1)
    }

    /// Whether a lookup finds the fingerprint in one of its two buckets.
    pub open spec fn spec_contains(&self, fai: FaI) -> bool {
        self.table()[self.bucket_of(fai.i1)].contains(fai.fp)
            || self.table()[self.bucket_of(fai.i2)].contains(fai.fp)
    }

    proof fn lemma_table_update(&self, next: &Self, k: int, s: Seq<Fingerprint>)
        requires
            0 <= k < self.buckets@.len(),
            next.buckets@ == self.buckets@.update(k, next.buckets@[k]),
            next.buckets@[k]@ == s,
        ensures
            next.table() == self.table().update(k, s),
    {
    }

    /// The count never exceeds the number of slots, and the table is never empty.
    pub proof fn lemma_len_bounded(&self)
        requires
            self.wf(),
        ensures
            self.bucket_count() >= 1,
            self.bucket_count() == self.table().len(),
            0 <= self.spec_len() <= self.bucket_count() * BUCKET_SIZE,
            is_pow2(self.bucket_count() as int),
            self.spec_len() == total_len(self.table()),
    {
        reveal(is_pow2);
        lemma_total_len_bound(self.table(), BUCKET_SIZE as nat);
    }

    /// Number of items in the filter: the number of fingerprints in its
    /// table, which is at most `BUCKET_SIZE` for each bucket.
    pub fn len(&self) -> (n: usize)
        ensures
            n == self.spec_len(),
            self.wf() ==> n == total_len(self.table()) && n <= self.bucket_count() * BUCKET_SIZE,
    {
        proof {
            if self.wf() {
                self.lemma_len_bounded();
            }
        }
        self.len
    }

    /// Check if filter is empty.
    pub fn is_empty(&self) -> (r: bool)
        ensures
            r == (self.spec_len() == 0),
    {
        self.len == 0
    }

    /// Starts the generator of the eviction choices afresh from `seed`. The
    /// choices that follow are the same for the same seed.
    pub fn reseed(&mut self, seed: u64)
        ensures
            final(self).table() == old(self).table(),
            final(self).spec_len() == old(self).spec_len(),
            final(self).alt_hashes() == old(self).alt_hashes(),
    {
        self.rng = seeded(seed);
    }

    /// The alternate of index `i` for the fingerprint.
    pub fn alt_index(&self, fp: Fingerprint, i: usize) -> (r: usize)
        requires
            self.wf(),
        ensures
            r == self.spec_alt(fp, i),
    {
        alt_index(self.alts[fp.0 as usize], i)
    }

    /// Stores the fingerprint in the bucket of index `i` unless that bucket is full.
    pub fn put(&mut self, fp: Fingerprint, i: usize) -> (stored: bool)
        requires
            old(self).wf(),
            fp.is_valid(),
        ensures
            final(self).wf(),
            final(self).alt_hashes() == old(self).alt_hashes(),
            stored == (old(self).table()[old(self).bucket_of(i)].len() < BUCKET_SIZE),
            stored ==> final(self).table() == old(self).table().update(
                old(self).bucket_of(i),
                old(self).table()[old(self).bucket_of(i)].push(fp),
            ),
            stored ==> final(self).spec_len() == old(self).spec_len() + 1,
            !stored ==> final(self).table() == old(self).table(),
            !stored ==> final(self).spec_len() == old(self).spec_len(),
    {
        proof {
            self.lemma_len_bounded();
        }
        let len = self.buckets.len();
        let k = i % len;
        let ghost before = *self;
        if self.buckets[k].insert(fp) {
            proof {
                before.lemma_table_update(self, k as int, before.table()[k as int].push(fp));
                lemma_total_len_update(before.table(), k as int, self.table()[k as int]);
                lemma_total_len_bound(self.table(), BUCKET_SIZE as nat);
            }
            self.len += 1;
            true
        } else {
            proof {
                before.lemma_table_update(self, k as int, before.table()[k as int]);
                assert(self.table() =~= before.table());
            }
            false
        }
    }

    /// Removes one copy of the fingerprint from the bucket of index `i`, if
    /// that bucket holds one.
    pub fn remove(&mut self, fp: Fingerprint, i: usize) -> (removed: bool)
        requires
            old(self).wf(),
        ensures
            final(self).wf(),
            final(self).alt_hashes() == old(self).alt_hashes(),
            removed == old(self).table()[old(self).bucket_of(i)].contains(fp),
            removed ==> final(self).table() == old(self).table().update(
                old(self).bucket_of(i),
                swap_removed(
                    old(self).table()[old(self).bucket_of(i)],
                    first_index(old(self).table()[old(self).bucket_of(i)], fp),
                ),
            ),
            removed ==> final(self).spec_len() == old(self).spec_len() - 1,
            !removed ==> final(self).table() == old(self).table(),
            !removed ==> final(self).spec_len() == old(self).spec_len(),
    {
        proof {
            self.lemma_len_bounded();
        }
        let len = self.buckets.len();
        let k = i % len;
        let ghost before = *self;
        if self.buckets[k].delete(fp) {
            proof {
                let s = before.table()[k as int];
                lemma_first_index_holds(s, fp);
                before.lemma_table_update(self, k as int, swap_removed(s, first_index(s, fp)));
                lemma_total_len_update(before.table(), k as int, self.table()[k as int]);
            }
            self.len -= 1;
            true
        } else {
            proof {
                before.lemma_table_update(self, k as int, before.table()[k as int]);
                assert(self.table() =~= before.table());
            }
            false
        }
    }

    /// One eviction: puts `fp` into slot `slot` of the bucket of index `i` and
    /// returns the fingerprint that was there, with the index of its alternate
    /// bucket. This is one move of a relocation.
    pub fn kick(&mut self, fp: Fingerprint, i: usize, slot: usize) -> (evicted: (
        Fingerprint,
        usize,
    ))
        requires
            old(self).wf(),
            fp.is_valid(),
            slot < old(self).table()[old(self).bucket_of(i)].len(),
        ensures
            final(self).wf(),
            final(self).alt_hashes() == old(self).alt_hashes(),
            final(self).spec_len() == old(self).spec_len(),
            evicted.0 == old(self).table()[old(self).bucket_of(i)][slot as int],
            evicted.0.is_valid(),
            evicted.1 == old(self).spec_alt(evicted.0, i),
            final(self).table() == old(self).table().update(
                old(self).bucket_of(i),
                old(self).table()[old(self).bucket_of(i)].update(slot as int, fp),
            ),
            starting(final(self).table(), evicted.0, final(self).bucket_of(evicted.1) as usize)
                == moved(
                old(self).alt_hashes(),
                starting(old(self).table(), fp, old(self).bucket_of(i) as usize),
                slot as int,
            ),
    {
        proof {
            self.lemma_len_bounded();
            lemma_alt_bucket_of_index(
                i,
                self.alt_hashes()[self.table()[self.bucket_of(i)][slot as int].0 as int],
                self.bucket_count(),
            );
        }
        let len = self.buckets.len();
        let k = i % len;
        let ghost before = *self;
        let other_fp = self.buckets[k].replace_at(slot, fp);
        proof {
            let s = before.table()[k as int];
            before.lemma_table_update(self, k as int, s.update(slot as int, fp));
            lemma_total_len_update(before.table(), k as int, self.table()[k as int]);
        }
        let next = self.alt_index(other_fp, i);
        (other_fp, next)
    }

    /// Checks whether the fingerprint is in one of its two buckets.
    pub fn contains_fai(&self, fai: &FaI) -> (r: bool)
        requires
            self.wf(),
        ensures
            r == self.spec_contains(*fai),
    {
        proof {
            self.lemma_len_bounded();
        }
        let len = self.buckets.len();
        self.buckets[fai.i1 % len].contains(fai.fp) || self.buckets[fai.i2 % len].contains(fai.fp)
    }

    /// Whether the first move is sure to make room: whichever of the value's two
    /// buckets the relocation starts at and whichever slot is taken, the
    /// fingerprint in that slot has room in its alternate bucket.
    pub open spec fn first_move_makes_room(pre: &Self, fai: FaI) -> bool {
        let t = pre.table();
        let alts = pre.alt_hashes();
        let c1 = pre.bucket_of(fai.i1);
        let c2 = pre.bucket_of(fai.i2);
        forall|c: int, j: int|
            (c == c1 || c == c2) && 0 <= j < t[c].len() ==> t[alt_bucket(
                c as usize,
                alts[(#[trigger] t[c][j]).0 as int],
                pre.bucket_count(),
            ) as int].len() < BUCKET_SIZE
    }

    /// What adding `fai` makes of the filter `pre`, with success `ok`.
    ///
    /// Where the first bucket has room the fingerprint is appended there, else
    /// where the second has room it is appended there, and both succeed.
    ///
    /// With both full, stored fingerprints are moved, starting at one of the
    /// two buckets: each move writes the fingerprint in flight into a slot and
    /// takes the one that was there to its alternate bucket. Success means
    /// that after at least one and at most `MAX_REBUCKET` moves the
    /// fingerprint in flight found room and was appended; it is owed where the
    /// first move is sure to make room. Failure means that `MAX_REBUCKET` moves
    /// were made and every one ended at a full bucket; the table is left as
    /// the moves made it, without the last fingerprint in flight.
    ///
    /// In terms of what lookups reach: on success the table has gained exactly
    /// one copy of the fingerprint for its pair of buckets, one bucket having
    /// grown by one; on failure one stored copy was traded for the
    /// fingerprint, and every bucket kept its size.
    pub open spec fn added(pre: &Self, fai: FaI, post: &Self, ok: bool) -> bool {
        let t = pre.table();
        let u = post.table();
        let alts = pre.alt_hashes();
        let c1 = pre.bucket_of(fai.i1);
        let c2 = pre.bucket_of(fai.i2);
        &&& post.alt_hashes() == alts
        &&& u.len() == t.len()
        &&& t[c1].len() < BUCKET_SIZE ==> ok && u == t.update(c1, t[c1].push(fai.fp))
        &&& t[c1].len() >= BUCKET_SIZE && t[c2].len() < BUCKET_SIZE ==> ok && u == t.update(
            c2,
            t[c2].push(fai.fp),
        )
        &&& Self::first_move_makes_room(pre, fai) ==> ok
        &&& ok && t[c1].len() >= BUCKET_SIZE && t[c2].len() >= BUCKET_SIZE ==> exists|
            start: usize,
            slots: Seq<int>,
        |
            (start == c1 || start == c2) && slots.len() <= MAX_REBUCKET && #[trigger] settled(
                alts,
                starting(t, fai.fp, start),
                slots,
                u,
            )
        &&& ok ==> {
            &&& post.spec_len() == pre.spec_len() + 1
            &&& gained(t, alts, u, fai.fp, c1 as usize)
            &&& exists|k: int| #[trigger] grew_at(t, u, k)
        }
        &&& !ok ==> {
            &&& post.spec_len() == pre.spec_len()
            &&& same_sizes(t, u)
            &&& exists|start: usize, slots: Seq<int>|
                (start == c1 || start == c2) && slots.len() == MAX_REBUCKET && #[trigger] exhausted(
                    alts,
                    starting(t, fai.fp, start),
                    slots,
                    u,
                )
            &&& exists|loss: Fingerprint, at: usize|
                at < t.len() && loss.is_valid() && #[trigger] traded(
                    t,
                    alts,
                    u,
                    fai.fp,
                    c1 as usize,
                    loss,
                    at,
                )
        }
    }

    /// What deleting `fai` makes of the filter `pre`, with result `removed`.
    ///
    /// A copy is removed from the first bucket if it holds one, else from the
    /// second if it holds one, else nothing changes.
    pub open spec fn deleted(pre: &Self, fai: FaI, post: &Self, removed: bool) -> bool {
        let t = pre.table();
        let u = post.table();
        let alts = pre.alt_hashes();
        let c1 = pre.bucket_of(fai.i1);
        let c2 = pre.bucket_of(fai.i2);
        &&& post.alt_hashes() == alts
        &&& u.len() == t.len()
        &&& removed == pre.spec_contains(fai)
        &&& t[c1].contains(fai.fp) ==> u == t.update(
            c1,
            swap_removed(t[c1], first_index(t[c1], fai.fp)),
        )
        &&& !t[c1].contains(fai.fp) && t[c2].contains(fai.fp) ==> u == t.update(
            c2,
            swap_removed(t[c2], first_index(t[c2], fai.fp)),
        )
        &&& removed ==> post.spec_len() == pre.spec_len() - 1
        &&& removed && pre.derives(fai) ==> gained(u, alts, t, fai.fp, c1 as usize)
        &&& !removed ==> u == t && post.spec_len() == pre.spec_len()
    }

    /// The two buckets of a derived value are each other's pair.
    pub proof fn lemma_buckets_paired(&self, fai: FaI)
        requires
            self.wf(),
            self.derives(fai),
        ensures
            0 <= self.bucket_of(fai.i1) < self.table().len(),
            0 <= self.bucket_of(fai.i2) < self.table().len(),
            self.bucket_of(fai.i2) == alt_bucket(
                self.bucket_of(fai.i1) as usize,
                self.alt_hashes()[fai.fp.0 as int],
                self.bucket_count(),
            ),
    {
        self.lemma_len_bounded();
        lemma_alt_bucket_of_index(fai.i1, self.alt_hashes()[fai.fp.0 as int], self.bucket_count());
    }

    /// A lookup of a derived value succeeds exactly when it reaches a copy.
    pub proof fn lemma_contains_is_reachable(&self, fai: FaI)
        requires
            self.wf(),
            self.derives(fai),
        ensures
            self.spec_contains(fai) <==> reachable(
                self.table(),
                self.alt_hashes(),
                fai.fp,
                self.bucket_of(fai.i1) as usize,
            ) > 0,
    {
        self.lemma_buckets_paired(fai);
        lemma_reachable_contains(
            self.table(),
            self.alt_hashes(),
            fai.fp,
            self.bucket_of(fai.i1) as usize,
        );
    }

    /// Deletes the fingerprint from one of its two buckets. Returns true if a
    /// copy was there.
    pub fn delete_fai(&mut self, fai: &FaI) -> (removed: bool)
        requires
            old(self).wf(),
        ensures
            final(self).wf(),
            Self::deleted(old(self), *fai, final(self), removed),
    {
        proof {
            self.lemma_len_bounded();
        }
        let ghost t = self.table();
        let ghost alts = self.alt_hashes();
        let ghost c1 = self.bucket_of(fai.i1);
        let ghost c2 = self.bucket_of(fai.i2);
        if self.remove(fai.fp, fai.i1) {
            proof {
                lemma_first_index_holds(t[c1], fai.fp);
                if old(self).derives(*fai) {
                    lemma_gained_by_remove(
                        t,
                        alts,
                        c1 as usize,
                        first_index(t[c1], fai.fp),
                        c1 as usize,
                    );
                }
            }
            true
        } else if self.remove(fai.fp, fai.i2) {
            proof {
                lemma_first_index_holds(t[c2], fai.fp);
                if old(self).derives(*fai) {
                    old(self).lemma_buckets_paired(*fai);
                    lemma_gained_by_remove(
                        t,
                        alts,
                        c2 as usize,
                        first_index(t[c2], fai.fp),
                        c1 as usize,
                    );
                }
            }
            true
        } else {
            false
        }
    }

    /// Adds the fingerprint to one of its two buckets, making room by moving
    /// stored fingerprints to their alternate buckets where both are full.
    /// Fails with `NotEnoughSpace` when `MAX_REBUCKET` moves made no room, and
    /// only then.
    pub fn add_fai(&mut self, fai: &FaI) -> (r: Result<(), CuckooError>)
        requires
            old(self).wf(),
            old(self).derives(*fai),
        ensures
            final(self).wf(),
            Self::added(old(self), *fai, final(self), r.is_ok()),
            Self::first_move_makes_room(old(self), *fai) ==> r.is_ok(),
            r.is_ok() ==> final(self).spec_contains(*fai),
    {
        proof {
            self.lemma_len_bounded();
            self.lemma_buckets_paired(*fai);
        }
        let ghost t = self.table();
        let ghost alts = self.alt_hashes();
        let ghost n = self.bucket_count();
        let ghost c1 = self.bucket_of(fai.i1) as usize;
        let ghost c2 = self.bucket_of(fai.i2) as usize;
        if self.put(fai.fp, fai.i1) {
            proof {
                lemma_gained_by_push(t, alts, c1, fai.fp, c1);
                self.lemma_found_after_gain(old(self), *fai);
                assert(grew_at(t, self.table(), c1 as int));
            }
            return Ok(());
        }
        if self.put(fai.fp, fai.i2) {
            proof {
                lemma_gained_by_push(t, alts, c2, fai.fp, c1);
                self.lemma_found_after_gain(old(self), *fai);
                assert(grew_at(t, self.table(), c2 as int));
            }
            return Ok(());
        }
        let mut i = fai.random_index(random_bit(&mut self.rng));
        let mut fp = fai.fp;
        let ghost start = self.bucket_of(i) as usize;
        let ghost first = starting(t, fai.fp, start);
        let ghost mut slots: Seq<int> = Seq::empty();
        proof {
            lemma_traded_start(t, alts, fai.fp, c1, start);
        }
        for round in 0..MAX_REBUCKET
            invariant
                self.wf(),
                fp.is_valid(),
                t == old(self).table(),
                alts == old(self).alt_hashes(),
                n == old(self).bucket_count(),
                c1 == old(self).bucket_of(fai.i1),
                c2 == old(self).bucket_of(fai.i2),
                old(self).wf(),
                old(self).derives(*fai),
                self.alt_hashes() == alts,
                self.table().len() == n,
                self.spec_len() == old(self).spec_len(),
                c1 < n,
                c2 < n,
                0 <= self.bucket_of(i) < n,
                t[c1 as int].len() >= BUCKET_SIZE,
                t[c2 as int].len() >= BUCKET_SIZE,
                self.table()[self.bucket_of(i)].len() == BUCKET_SIZE,
                same_sizes(t, self.table()),
                traded(t, alts, self.table(), fai.fp, c1, fp, self.bucket_of(i) as usize),
                start == c1 || start == c2,
                first == starting(t, fai.fp, start),
                slots.len() == round,
                slots_in_range(slots),
                stuck(alts, first, slots),
                relocated(alts, first, slots).table == self.table(),
                relocated(alts, first, slots).flying == fp,
                relocated(alts, first, slots).at == self.bucket_of(i),
                round > 0 ==> !Self::first_move_makes_room(old(self), *fai),
        {
            proof {
                self.lemma_len_bounded();
            }
            let ghost u = self.table();
            let ghost k = self.bucket_of(i) as usize;
            let slot = random_below(&mut self.rng, BUCKET_SIZE);
            let (other_fp, next) = self.kick(fp, i, slot);
            proof {
                lemma_traded_step(t, alts, u, fai.fp, c1, fp, k, slot as int);
                lemma_alt_bucket_of_index(i, alts[other_fp.0 as int], n);
                lemma_relocated_push(alts, first, slots, slot as int);
            }
            i = next;
            let ghost v = self.table();
            let ghost knext = self.bucket_of(i) as usize;
            let ghost longer = slots.push(slot as int);
            if self.put(other_fp, i) {
                proof {
                    lemma_traded_settles(t, alts, v, fai.fp, c1, other_fp, knext);
                    self.lemma_found_after_gain(old(self), *fai);
                    assert(grew_at(t, self.table(), knext as int));
                    assert(longer.drop_last() =~= slots);
                    assert(settled(alts, first, longer, self.table()));
                }
                return Ok(());
            }
            proof {
                // The bucket that the move led to is full. Had this been the
                // first move, it would be a move that made no room.
                if round == 0 {
                    assert(t[k as int][slot as int] == other_fp);
                    assert(t[knext as int].len() >= BUCKET_SIZE);
                }
                slots = longer;
            }
            fp = other_fp;
        }
        proof {
            assert(exhausted(alts, first, slots, self.table()));
        }
        Err(CuckooError::NotEnoughSpace)
    }

    /// After a copy of a derived value's fingerprint has been gained for its
    /// pair of buckets, a lookup finds it.
    pub proof fn lemma_found_after_gain(&self, pre: &Self, fai: FaI)
        requires
            pre.wf(),
            pre.derives(fai),
            self.wf(),
            self.alt_hashes() == pre.alt_hashes(),
            gained(
                pre.table(),
                pre.alt_hashes(),
                self.table(),
                fai.fp,
                pre.bucket_of(fai.i1) as usize,
            ),
        ensures
            self.spec_contains(fai),
    {
        pre.lemma_buckets_paired(fai);
        self.lemma_contains_is_reachable(fai);
        let c1 = pre.bucket_of(fai.i1) as usize;
        assert(reachable(self.table(), self.alt_hashes(), fai.fp, c1) == reachable(
            pre.table(),
            pre.alt_hashes(),
            fai.fp,
            c1,
        ) + 1);
    }

    /// The bytes counted for one bucket: its own size, and no less than a byte
    /// for each of its slots.
    pub open spec fn spec_bucket_bytes() -> nat {
        if size_of::<Bucket>() >= BUCKET_SIZE {
            size_of::<Bucket>()
        } else {
            BUCKET_SIZE as nat
        }
    }

    /// The filter's size in bytes: its own and that of its buckets.
    pub open spec fn spec_memory_usage(&self) -> nat {
        size_of::<CuckooFilter<H>>() + self.table().len() * Self::spec_bucket_bytes()
    }

    /// Number of bytes the filter occupies in memory, or the largest number
    /// there is where the true one is out of range. The estimate covers a
    /// byte for every slot of every bucket.
    pub fn memory_usage(&self) -> (bytes: usize)
        ensures
            bytes == if self.spec_memory_usage() <= usize::MAX {
                self.spec_memory_usage()
            } else {
                usize::MAX as nat
            },
            self.bucket_count() * BUCKET_SIZE <= usize::MAX ==> bytes >= self.bucket_count()
                * BUCKET_SIZE,
    {
        let own = core::mem::size_of::<CuckooFilter<H>>();
        let size = core::mem::size_of::<Bucket>();
        let each = if size >= BUCKET_SIZE {
            size
        } else {
            BUCKET_SIZE
        };
        let count = self.buckets.len();
        assert(count == self.table().len());
        assert(count * each >= count * BUCKET_SIZE) by (nonlinear_arith)
            requires
                each >= BUCKET_SIZE,
        ;
        match count.checked_mul(each) {
            Some(all) => own.saturating_add(all),
            None => usize::MAX,
        }
    }

    /// Adds the fingerprint if a lookup does not find it. Returns `Ok(true)`
    /// if it was not found and has been added.
    pub fn test_and_add_fai(&mut self, fai: &FaI) -> (r: Result<bool, CuckooError>)
        requires
            old(self).wf(),
            old(self).derives(*fai),
        ensures
            final(self).wf(),
            final(self).spec_len() == old(self).spec_len() + if r == Ok::<bool, CuckooError>(true) {
                1int
            } else {
                0int
            },
            old(self).spec_contains(*fai) ==> r == Ok::<bool, CuckooError>(false)
                && final(self).table() == old(self).table() && final(self).spec_len() == old(
                self,
            ).spec_len() && final(self).alt_hashes() == old(self).alt_hashes(),
            !old(self).spec_contains(*fai) ==> r != Ok::<bool, CuckooError>(false) && Self::added(
                old(self),
                *fai,
                final(self),
                r.is_ok(),
            ) && (r.is_ok() ==> final(self).spec_contains(*fai)),
    {
        if self.contains_fai(fai) {
            Ok(false)
        } else {
            match self.add_fai(fai) {
                Ok(_) => Ok(true),
                Err(e) => Err(e),
            }
        }
    }

    /// The fingerprint data stored in the filter: `BUCKET_SIZE` bytes for each
    /// bucket in turn, with `0` in every empty slot.
    pub fn export(&self) -> (bytes: Vec<u8>)
        requires
            self.wf(),
        ensures
            bytes@ == encoded(self.table()),
    {
        let count = self.buckets.len();
        let ghost t = self.table();
        let mut bytes: Vec<u8> = Vec::with_capacity(count * BUCKET_SIZE);
        let mut k: usize = 0;
        while k < count
            invariant
                self.wf(),
                t == self.table(),
                count == t.len(),
                k <= count,
                bytes@.len() == k * BUCKET_SIZE,
                forall|p: int|
                    0 <= p < bytes@.len() ==> #[trigger] bytes@[p] == slot_byte(
                        t[p / 4],
                        p % 4,
                    ),
            decreases count - k,
        {
            let bucket = &self.buckets[k];
            let mut j: usize = 0;
            while j < BUCKET_SIZE
                invariant
                    self.wf(),
                    t == self.table(),
                    count == t.len(),
                    k < count,
                    j <= BUCKET_SIZE,
                    bucket@ == t[k as int],
                    bytes@.len() == k * BUCKET_SIZE + j,
                    forall|p: int|
                        0 <= p < bytes@.len() ==> #[trigger] bytes@[p] == slot_byte(
                            t[p / 4],
                            p % 4,
                        ),
                decreases BUCKET_SIZE - j,
            {
                let byte = if j < bucket.buffer.len() {
                    bucket.buffer[j].0
                } else {
                    0
                };
                bytes.push(byte);
                j += 1;
            }
            k += 1;
        }
        assert(bytes@ =~= encoded(t));
        bytes
    }
}

impl<H: Hasher + Default> CuckooFilter<H> {
    /// Hashes every fingerprint value under `H`.
    fn alt_table() -> (alts: Vec<usize>)
        ensures
            alts@.len() == FINGERPRINT_VALUES,
    {
        let mut alts: Vec<usize> = Vec::with_capacity(FINGERPRINT_VALUES);
        let mut value: usize = 0;
        while value < FINGERPRINT_VALUES
            invariant
                value <= FINGERPRINT_VALUES,
                alts@.len() == value,
            decreases FINGERPRINT_VALUES - value,
        {
            alts.push(fingerprint_hash::<H>(Fingerprint(value as u8)));
            value += 1;
        }
        alts
    }

    /// Constructs a filter for `cap` items: as many slots as the next power of
    /// two, `BUCKET_SIZE` to a bucket, and at least one bucket, all empty.
    pub fn with_capacity(cap: u64) -> (filter: CuckooFilter<H>)
        requires
            next_power_of_two(cap as nat) <= usize::MAX,
        ensures
            filter.wf(),
            filter.spec_len() == 0,
            filter.bucket_count() == bucket_count_for(cap as nat),
            forall|k: int|
                0 <= k < filter.table().len() ==> #[trigger] filter.table()[k]
                    == Seq::<Fingerprint>::empty(),
    {
        let rounded = round_up_to_power_of_two(cap);
        let capacity: u64 = match rounded / BUCKET_SIZE as u64 {
            0 => 1,
            count => count,
        };
        proof {
            lemma_bucket_count_for(cap as nat);
        }
        let count = capacity as usize;
        let mut buckets: Vec<Bucket> = Vec::with_capacity(count);
        let mut k: usize = 0;
        while k < count
            invariant
                k <= count,
                buckets@.len() == k,
                forall|j: int| 0 <= j < k ==> (#[trigger] buckets@[j])@.len() == 0,
            decreases count - k,
        {
            buckets.push(Bucket::new());
            k += 1;
        }
        let filter = CuckooFilter {
            buckets,
            len: 0,
            alts: Self::alt_table(),
            rng: seeded(DEFAULT_SEED),
            _hasher: PhantomData,
        };
        proof {
            lemma_total_len_empty(filter.table());
            assert forall|j: int| 0 <= j < filter.table().len() implies #[trigger] filter.table()[j]
                == Seq::<Fingerprint>::empty() by {
                assert(filter.table()[j] =~= Seq::<Fingerprint>::empty());
            }
        }
        filter
    }

    /// Constructs a filter for `cap` items if the machine can count its slots:
    /// returns `None` where the next power of two does not fit a word.
    pub fn try_with_capacity(cap: u64) -> (r: Option<CuckooFilter<H>>)
        ensures
            r.is_some() == (next_power_of_two(cap as nat) <= usize::MAX),
            r.is_some() ==> r.unwrap().wf() && r.unwrap().spec_len() == 0,
            r.is_some() ==> r.unwrap().bucket_count() == bucket_count_for(cap as nat),
            r.is_some() ==> forall|k: int|
                0 <= k < r.unwrap().table().len() ==> #[trigger] r.unwrap().table()[k]
                    == Seq::<Fingerprint>::empty(),
    {
        if cap > 0x8000_0000_0000_0000 {
            proof {
                // The next power of two lies beyond two to the power of 63.
                lemma_next_power_of_two(cap as nat);
                lemma_power_of_two_63();
                lemma_pow2_gap(0x8000_0000_0000_0000, next_power_of_two(cap as nat));
            }
            return None;
        }
        proof {
            lemma_power_of_two_63();
            lemma_next_power_of_two_least(cap as nat, 0x8000_0000_0000_0000);
        }
        let rounded = round_up_to_power_of_two(cap);
        if rounded > usize::MAX as u64 {
            return None;
        }
        Some(Self::with_capacity(cap))
    }

    /// The fingerprint and the two indices of `data` in this filter.
    pub fn fai_of<T: ?Sized + Hash>(&self, data: &T) -> (fai: FaI)
        requires
            self.wf(),
        ensures
            self.derives(fai),
            fai.wf(),
    {
        let hash = get_hash::<T, H>(data);
        let first = FaI::from_hash(&hash);
        let i2 = self.alt_index(first.fp, first.i1);
        FaI { fp: first.fp, i1: first.i1, i2 }
    }

    /// Checks if `data` is in the filter.
    pub fn contains<T: ?Sized + Hash>(&self, data: &T) -> (r: bool)
        requires
            self.wf(),
        ensures
            exists|fai: FaI|
                self.derives(fai) && fai.wf() && r == #[trigger] self.spec_contains(fai),
    {
        let fai = self.fai_of(data);
        self.contains_fai(&fai)
    }

    /// Adds `data` to the filter. Returns `Ok` if the insertion was successful,
    /// but could fail with a `NotEnoughSpace` error, especially when the filter
    /// is nearing its capacity. An item that is already there is stored again.
    pub fn add<T: ?Sized + Hash>(&mut self, data: &T) -> (r: Result<(), CuckooError>)
        requires
            old(self).wf(),
        ensures
            final(self).wf(),
            final(self).bucket_count() == old(self).bucket_count(),
            final(self).spec_len() == old(self).spec_len() + if r.is_ok() { 1int } else { 0int },
            exists|fai: FaI|
                old(self).derives(fai) && fai.wf() && #[trigger] Self::added(
                    old(self),
                    fai,
                    final(self),
                    r.is_ok(),
                ) && (r.is_ok() ==> final(self).spec_contains(fai)),
    {
        let fai = self.fai_of(data);
        self.add_fai(&fai)
    }

    /// Deletes `data` from the filter. Returns true if `data` existed in the
    /// filter before.
    pub fn delete<T: ?Sized + Hash>(&mut self, data: &T) -> (removed: bool)
        requires
            old(self).wf(),
        ensures
            final(self).wf(),
            final(self).bucket_count() == old(self).bucket_count(),
            final(self).spec_len() == old(self).spec_len() - if removed { 1int } else { 0int },
            exists|fai: FaI|
                old(self).derives(fai) && fai.wf() && #[trigger] Self::deleted(
                    old(self),
                    fai,
                    final(self),
                    removed,
                ),
    {
        let fai = self.fai_of(data);
        self.delete_fai(&fai)
    }

    /// Adds `data` to the filter if it does not exist in the filter yet.
    /// Returns `Ok(true)` if `data` was not yet present in the filter and added
    /// successfully.
    pub fn test_and_add<T: ?Sized + Hash>(&mut self, data: &T) -> (r: Result<bool, CuckooError>)
        requires
            old(self).wf(),
        ensures
            final(self).wf(),
            final(self).bucket_count() == old(self).bucket_count(),
            final(self).spec_len() == old(self).spec_len() + if r == Ok::<bool, CuckooError>(true) {
                1int
            } else {
                0int
            },
            exists|fai: FaI|
                old(self).derives(fai) && fai.wf() && #[trigger] old(self).spec_contains(fai) == (r
                    == Ok::<bool, CuckooError>(false)) && (old(self).spec_contains(fai)
                    ==> final(self).table() == old(self).table()) && (!old(self).spec_contains(fai)
                    ==> Self::added(old(self), fai, final(self), r.is_ok())),
    {
        let fai = self.fai_of(data);
        self.test_and_add_fai(&fai)
    }

    /// Reads the bucket that `BUCKET_SIZE` bytes from `start` stand for.
    fn bucket_from(values: &Vec<u8>, start: usize) -> (bucket: Bucket)
        requires
            start + BUCKET_SIZE <= values@.len(),
        ensures
            bucket@ == stored(values@.subrange(start as int, start + BUCKET_SIZE)),
    {
        let mut bucket = Bucket::new();
        let mut j: usize = 0;
        while j < BUCKET_SIZE
            invariant
                j <= BUCKET_SIZE,
                start + BUCKET_SIZE <= values.len(),
                bucket@ == stored(values@.subrange(start as int, start + j)),
            decreases BUCKET_SIZE - j,
        {
            let byte = values[start + j];
            proof {
                let before = values@.subrange(start as int, start + j);
                let after = values@.subrange(start as int, start + j + 1);
                assert(after.drop_last() =~= before);
                lemma_stored(before);
            }
            if byte != 0 {
                bucket.insert(Fingerprint(byte));
            }
            j += 1;
        }
        bucket
    }

    /// Builds the filter whose table the bytes stand for.
    fn rebuild(values: &Vec<u8>) -> (filter: CuckooFilter<H>)
        requires
            well_shaped(values@),
        ensures
            filter.wf(),
            filter.table() == decoded(values@),
    {
        let count = values.len() / BUCKET_SIZE;
        let mut buckets: Vec<Bucket> = Vec::with_capacity(count);
        let mut len: usize = 0;
        let mut k: usize = 0;
        while k < count
            invariant
                count * BUCKET_SIZE == values.len(),
                k <= count,
                buckets@.len() == k,
                forall|j: int|
                    0 <= j < k ==> (#[trigger] buckets@[j])@ == stored(window(values@, j)),
                len == total_len(buckets@.map_values(|b: Bucket| b@)),
                len <= k * BUCKET_SIZE,
            decreases count - k,
        {
            let bucket = Self::bucket_from(values, k * BUCKET_SIZE);
            proof {
                let views = buckets@.map_values(|b: Bucket| b@);
                let grown = buckets@.push(bucket).map_values(|b: Bucket| b@);
                assert(grown.drop_last() =~= views);
                lemma_stored(window(values@, k as int));
            }
            len = len + bucket.buffer.len();
            buckets.push(bucket);
            k += 1;
        }
        let filter = CuckooFilter {
            buckets,
            len,
            alts: Self::alt_table(),
            rng: seeded(DEFAULT_SEED),
            _hasher: PhantomData,
        };
        proof {
            assert(filter.table() =~= decoded(values@));
            lemma_decoded_wf(values@);
        }
        filter
    }

    /// Rebuilds a filter from exported bytes and the count that went with
    /// them: each bucket is filled from its `BUCKET_SIZE` bytes.
    pub fn recover(values: Vec<u8>, len: usize) -> (filter: CuckooFilter<H>)
        requires
            recoverable(values@, len),
        ensures
            filter.wf(),
            filter.table() == decoded(values@),
            filter.spec_len() == len,
    {
        let mut filter = Self::rebuild(&values);
        filter.len = len;
        filter
    }

    /// Rebuilds a filter from bytes and a count if they fit together: the
    /// bytes make up whole buckets, a power of two of them, and hold as many
    /// fingerprints as the count says. Returns `None` if they do not.
    pub fn try_recover(values: Vec<u8>, len: usize) -> (r: Option<CuckooFilter<H>>)
        ensures
            r.is_some() == recoverable(values@, len),
            r.is_some() ==> r.unwrap().wf() && r.unwrap().table() == decoded(values@)
                && r.unwrap().spec_len() == len,
    {
        if values.len() % BUCKET_SIZE != 0 || !is_power_of_two(values.len() / BUCKET_SIZE) {
            return None;
        }
        let filter = Self::rebuild(&values);
        if filter.len == len {
            Some(filter)
        } else {
            None
        }
    }
}

impl CuckooFilter<DefaultHasher> {
    /// Constructs a filter with the default capacity and hasher.
    pub fn new() -> (filter: CuckooFilter<DefaultHasher>)
        ensures
            filter.wf(),
            filter.spec_len() == 0,
            filter.bucket_count() == bucket_count_for(DEFAULT_CAPACITY as nat),
            forall|k: int|
                0 <= k < filter.table().len() ==> #[trigger] filter.table()[k]
                    == Seq::<Fingerprint>::empty(),
    {
        proof {
            lemma_next_power_of_two(DEFAULT_CAPACITY as nat);
        }
        Self::with_capacity(DEFAULT_CAPACITY)
    }
}

impl Default for CuckooFilter<DefaultHasher> {
    fn default() -> (filter: Self)
        ensures
            filter.wf(),
            filter.spec_len() == 0,
            filter.bucket_count() == bucket_count_for(DEFAULT_CAPACITY as nat),
            forall|k: int|
                0 <= k < filter.table().len() ==> #[trigger] filter.table()[k]
                    == Seq::<Fingerprint>::empty(),
    {
        CuckooFilter::new()
    }
}

} // verus!
