//! The exported form of a table: `BUCKET_SIZE` bytes for each bucket, its
//! fingerprints first and the reserved byte `0` in every empty slot.

use crate::bucket::{Fingerprint, BUCKET_SIZE};
use crate::table::{table_wf, total_len};
use vstd::arithmetic::power2::is_pow2;
use vstd::prelude::*;

verus! {

/// The byte that stands for slot `j` of a bucket.
pub open spec fn slot_byte(s: Seq<Fingerprint>, j: int) -> u8 {
    if 0 <= j < s.len() {
        s[j].0
    } else {
        0
    }
}

/// The bytes that stand for a table.
pub open spec fn encoded(t: Seq<Seq<Fingerprint>>) -> Seq<u8> {
    Seq::new(t.len() * BUCKET_SIZE as nat, |p: int| slot_byte(t[p / 4], p % 4))
}

/// The fingerprints that a run of bytes holds: its bytes other than `0`, in order.
pub open spec fn stored(bytes: Seq<u8>) -> Seq<Fingerprint>
    decreases bytes.len(),
{
    if bytes.len() == 0 {
        Seq::empty()
    } else if bytes.last() == 0 {
        stored(bytes.drop_last())
    } else {
        stored(bytes.drop_last()).push(Fingerprint(bytes.last()))
    }
}

/// The `BUCKET_SIZE` bytes that stand for bucket `k`.
pub open spec fn window(bytes: Seq<u8>, k: int) -> Seq<u8> {
    bytes.subrange(BUCKET_SIZE * k, BUCKET_SIZE * k + BUCKET_SIZE)
}

/// The table that bytes stand for: one bucket for every `BUCKET_SIZE` bytes.
pub open spec fn decoded(bytes: Seq<u8>) -> Seq<Seq<Fingerprint>> {
    Seq::new(bytes.len() / BUCKET_SIZE as nat, |k: int| stored(window(bytes, k)))
}

/// Whether bytes have the shape of an exported table: whole buckets, a power
/// of two of them.
pub open spec fn well_shaped(bytes: Seq<u8>) -> bool {
    &&& bytes.len() % BUCKET_SIZE as nat == 0
    &&& is_pow2((bytes.len() / BUCKET_SIZE as nat) as int)
}

/// Whether a filter can be rebuilt from the bytes and the count: the bytes are
/// well shaped and hold as many fingerprints as the count says.
pub open spec fn recoverable(bytes: Seq<u8>, len: usize) -> bool {
    &&& well_shaped(bytes)
    &&& len == total_len(decoded(bytes))
}

/// A run of bytes holds no more fingerprints than it has bytes, all valid.
pub proof fn lemma_stored(bytes: Seq<u8>)
    ensures
        stored(bytes).len() <= bytes.len(),
        forall|j: int| 0 <= j < stored(bytes).len() ==> (#[trigger] stored(bytes)[j]).is_valid(),
    decreases bytes.len(),
{
    if bytes.len() > 0 {
        lemma_stored(bytes.drop_last());
    }
}

/// Well-shaped bytes of a length in machine range stand for a well-formed table.
pub proof fn lemma_decoded_wf(bytes: Seq<u8>)
    requires
        well_shaped(bytes),
        bytes.len() <= usize::MAX,
    ensures
        table_wf(decoded(bytes)),
{
    let t = decoded(bytes);
    assert forall|k: int| 0 <= k < t.len() implies (#[trigger] t[k]).len() <= BUCKET_SIZE by {
        lemma_stored(window(bytes, k));
    }
    assert forall|k: int, j: int| 0 <= k < t.len() && 0 <= j < t[k].len() implies (
    #[trigger] t[k][j]).is_valid() by {
        lemma_stored(window(bytes, k));
    }
}

/// Valid fingerprints followed by empty slots are read back as they are.
pub proof fn lemma_stored_of_slots(s: Seq<Fingerprint>, width: nat)
    requires
        s.len() <= width,
        forall|j: int| 0 <= j < s.len() ==> (#[trigger] s[j]).is_valid(),
    ensures
        stored(Seq::new(width, |j: int| slot_byte(s, j))) == s,
    decreases width,
{
    let bytes = Seq::new(width, |j: int| slot_byte(s, j));
    if width == 0 {
    } else if s.len() < width {
        assert(bytes.drop_last() =~= Seq::new((width - 1) as nat, |j: int| slot_byte(s, j)));
        lemma_stored_of_slots(s, (width - 1) as nat);
    } else {
        let front = s.drop_last();
        assert(bytes.drop_last() =~= Seq::new((width - 1) as nat, |j: int| slot_byte(front, j)));
        lemma_stored_of_slots(front, (width - 1) as nat);
    }
}

/// Exporting a well-formed table and reading the bytes back gives the table.
pub proof fn lemma_decoded_encoded(t: Seq<Seq<Fingerprint>>)
    requires
        table_wf(t),
    ensures
        decoded(encoded(t)) == t,
        well_shaped(encoded(t)),
        encoded(t).len() == t.len() * BUCKET_SIZE,
{
    let bytes = encoded(t);
    assert forall|k: int| 0 <= k < t.len() implies #[trigger] decoded(bytes)[k] == t[k] by {
        assert(window(bytes, k) =~= Seq::new(BUCKET_SIZE as nat, |j: int| slot_byte(t[k], j)));
        lemma_stored_of_slots(t[k], BUCKET_SIZE as nat);
    }
    assert(decoded(bytes) =~= t);
}

} // verus!
