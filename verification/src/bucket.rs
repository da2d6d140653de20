//! Fingerprints and the fixed-capacity buckets that hold them.

use vstd::prelude::*;

verus! {

/// Number of bytes in a fingerprint.
pub const FINGERPRINT_SIZE: usize = 1;

/// Number of fingerprints a bucket can hold.
pub const BUCKET_SIZE: usize = 4;

/// A one-byte tag derived from an item's hash. The byte `0` is reserved: it
/// marks an empty slot in an exported table and never names a stored item.
#[derive(PartialEq, Eq, Structural, Copy, Clone, Debug)]
pub struct Fingerprint(pub u8);

impl Fingerprint {
    /// A fingerprint is valid when it is not the reserved empty byte.
    pub open spec fn is_valid(self) -> bool {
        self.0 != 0
    }

    /// Builds a fingerprint from its byte, refusing the reserved byte.
    pub fn from_data(data: [u8; FINGERPRINT_SIZE]) -> (r: Option<Fingerprint>)
        ensures
            r == (if data[0] == 0 { None } else { Some(Fingerprint(data[0])) }),
    {
        if data[0] == 0 {
            None
        } else {
            Some(Fingerprint(data[0]))
        }
    }
}

/// Number of times `fp` occurs in `s`.
pub open spec fn occurrences(s: Seq<Fingerprint>, fp: Fingerprint) -> nat
    decreases s.len(),
{
    if s.len() == 0 {
        0
    } else {
        occurrences(s.drop_last(), fp) + if s.last() == fp { 1nat } else { 0nat }
    }
}

/// The sequence left when position `i` is overwritten by the last element and
/// the last position is dropped.
pub open spec fn swap_removed(s: Seq<Fingerprint>, i: int) -> Seq<Fingerprint> {
    s.update(i, s.last()).drop_last()
}

/// Position of the first occurrence of `fp` in `s`, or `s.len()` when there is none.
pub open spec fn first_index(s: Seq<Fingerprint>, fp: Fingerprint) -> int
    decreases s.len(),
{
    if s.len() == 0 {
        0
    } else if s[0] == fp {
        0
    } else {
        1 + first_index(s.subrange(1, s.len() as int), fp)
    }
}

/// Manages `BUCKET_SIZE` fingerprints at most.
#[derive(Debug)]
pub struct Bucket {
    pub buffer: Vec<Fingerprint>,
}

impl View for Bucket {
    type V = Seq<Fingerprint>;

    open spec fn view(&self) -> Seq<Fingerprint> {
        self.buffer@
    }
}

impl Clone for Bucket {
    fn clone(&self) -> (b: Bucket)
        ensures
            b@ == self@,
    {
        let mut buffer: Vec<Fingerprint> = Vec::with_capacity(BUCKET_SIZE);
        let mut i: usize = 0;
        while i < self.buffer.len()
            invariant
                i <= self@.len(),
                buffer@ == self@.take(i as int),
            decreases self@.len() - i,
        {
            buffer.push(self.buffer[i]);
            i += 1;
        }
        Bucket { buffer }
    }
}

impl Bucket {
    /// Creates an empty bucket with room for `BUCKET_SIZE` fingerprints.
    pub fn new() -> (b: Bucket)
        ensures
            b@ == Seq::<Fingerprint>::empty(),
    {
        Bucket { buffer: Vec::with_capacity(BUCKET_SIZE) }
    }

    /// Appends the fingerprint unless the bucket is full.
    pub fn insert(&mut self, fp: Fingerprint) -> (inserted: bool)
        ensures
            inserted == (old(self)@.len() < BUCKET_SIZE),
            inserted ==> final(self)@ == old(self)@.push(fp),
            !inserted ==> final(self)@ == old(self)@,
    {
        if self.buffer.len() < BUCKET_SIZE {
            self.buffer.push(fp);
            true
        } else {
            false
        }
    }

    /// Removes the first occurrence of the fingerprint, if there is one. The
    /// last fingerprint takes the freed place, so the order may change.
    pub fn delete(&mut self, fp: Fingerprint) -> (removed: bool)
        ensures
            removed == old(self)@.contains(fp),
            removed ==> final(self)@ == swap_removed(old(self)@, first_index(old(self)@, fp)),
            !removed ==> final(self)@ == old(self)@,
    {
        match self.get_fingerprint_index(fp) {
            Some(index) => {
                self.buffer.swap_remove(index);
                true
            },
            None => false,
        }
    }

    /// Returns the index of the first occurrence of the fingerprint, if it is found.
    pub fn get_fingerprint_index(&self, fp: Fingerprint) -> (r: Option<usize>)
        ensures
            r.is_some() == self@.contains(fp),
            r.is_some() ==> r.unwrap() == first_index(self@, fp),
            r.is_some() ==> r.unwrap() < self@.len() && self@[r.unwrap() as int] == fp,
    {
        let mut i: usize = 0;
        while i < self.buffer.len()
            invariant
                i <= self@.len(),
                forall|j: int| 0 <= j < i ==> self@[j] != fp,
            decreases self@.len() - i,
        {
            if self.buffer[i] == fp {
                proof {
                    lemma_first_index(self@, fp, i as int);
                }
                return Some(i);
            }
            i += 1;
        }
        None
    }

    /// Whether the fingerprint occurs in the bucket.
    pub fn contains(&self, fp: Fingerprint) -> (r: bool)
        ensures
            r == self@.contains(fp),
    {
        self.get_fingerprint_index(fp).is_some()
    }

    /// The fingerprint in slot `j`.
    pub fn slot_at(&self, j: usize) -> (fp: Fingerprint)
        requires
            j < self@.len(),
        ensures
            fp == self@[j as int],
    {
        self.buffer[j]
    }

    /// Puts `fp` into slot `j` and returns the fingerprint that was there.
    pub fn replace_at(&mut self, j: usize, fp: Fingerprint) -> (previous: Fingerprint)
        requires
            j < old(self)@.len(),
        ensures
            previous == old(self)@[j as int],
            final(self)@ == old(self)@.update(j as int, fp),
    {
        let previous = self.buffer[j];
        self.buffer[j] = fp;
        previous
    }
}

/// `first_index` is the position `i` whenever `fp` is at `i` and nowhere before it.
pub proof fn lemma_first_index(s: Seq<Fingerprint>, fp: Fingerprint, i: int)
    requires
        0 <= i < s.len(),
        s[i] == fp,
        forall|j: int| 0 <= j < i ==> s[j] != fp,
    ensures
        first_index(s, fp) == i,
    decreases s.len(),
{
    if i > 0 {
        let t = s.subrange(1, s.len() as int);
        assert forall|j: int| 0 <= j < i - 1 implies t[j] != fp by {
            assert(t[j] == s[j + 1]);
        }
        lemma_first_index(t, fp, i - 1);
    }
}

} // verus!
