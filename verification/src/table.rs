//! The mathematical model of a filter's table: a sequence of buckets, each a
//! sequence of fingerprints, with the counts that the filter's contracts use.

use crate::bucket::{first_index, occurrences, swap_removed, Fingerprint, BUCKET_SIZE};
use crate::index::{alt_bucket, in_pair, lemma_alt_bucket_involution};
use vstd::arithmetic::power2::is_pow2;
use vstd::prelude::*;

verus! {

/// Total number of fingerprints in the table.
pub open spec fn total_len(t: Seq<Seq<Fingerprint>>) -> nat
    decreases t.len(),
{
    if t.len() == 0 {
        0
    } else {
        total_len(t.drop_last()) + t.last().len()
    }
}

/// A table is well formed when its size is a power of two that leaves the slot
/// count within machine range, no bucket holds more than `BUCKET_SIZE`
/// fingerprints, and every stored fingerprint is valid.
pub open spec fn table_wf(t: Seq<Seq<Fingerprint>>) -> bool {
    &&& is_pow2(t.len() as int)
    &&& t.len() * BUCKET_SIZE <= usize::MAX
    &&& forall|k: int| 0 <= k < t.len() ==> (#[trigger] t[k]).len() <= BUCKET_SIZE
    &&& forall|k: int, j: int|
        0 <= k < t.len() && 0 <= j < t[k].len() ==> (#[trigger] t[k][j]).is_valid()
}

/// Table `u` has the buckets of table `t` in size, but for bucket `k`, which
/// holds one fingerprint more.
pub open spec fn grew_at(t: Seq<Seq<Fingerprint>>, u: Seq<Seq<Fingerprint>>, k: int) -> bool {
    &&& u.len() == t.len()
    &&& 0 <= k < t.len()
    &&& u[k].len() == t[k].len() + 1
    &&& forall|j: int| 0 <= j < t.len() && j != k ==> (#[trigger] u[j]).len() == t[j].len()
}

/// Tables `t` and `u` have buckets of the same sizes.
pub open spec fn same_sizes(t: Seq<Seq<Fingerprint>>, u: Seq<Seq<Fingerprint>>) -> bool {
    &&& u.len() == t.len()
    &&& forall|k: int| 0 <= k < t.len() ==> (#[trigger] u[k]).len() == t[k].len()
}

/// Number of copies of `fp` that a lookup starting at bucket `b` reaches: those
/// in bucket `b` and those in the bucket paired with it.
pub open spec fn reachable(
    t: Seq<Seq<Fingerprint>>,
    alts: Seq<usize>,
    fp: Fingerprint,
    b: usize,
) -> nat {
    let c = alt_bucket(b, alts[fp.0 as int], t.len() as usize);
    occurrences(t[b as int], fp) + if c != b {
        occurrences(t[c as int], fp)
    } else {
        0nat
    }
}

/// One if a lookup of `fp` starting at bucket `b` reaches a copy of `owner`
/// stored in bucket `c` or in the bucket paired with `c`, else zero.
pub open spec fn credit(
    alts: Seq<usize>,
    n: usize,
    owner: Fingerprint,
    c: usize,
    fp: Fingerprint,
    b: usize,
) -> nat {
    if fp == owner && in_pair(b, c, alts[owner.0 as int], n) {
        1
    } else {
        0
    }
}

/// Replacing one bucket changes the total by the difference of the two sizes.
pub proof fn lemma_total_len_update(t: Seq<Seq<Fingerprint>>, k: int, s: Seq<Fingerprint>)
    requires
        0 <= k < t.len(),
    ensures
        total_len(t.update(k, s)) == total_len(t) - t[k].len() + s.len(),
    decreases t.len(),
{
    let u = t.update(k, s);
    if k == t.len() - 1 {
        assert(u.drop_last() =~= t.drop_last());
    } else {
        assert(u.drop_last() =~= t.drop_last().update(k, s));
        lemma_total_len_update(t.drop_last(), k, s);
    }
}

/// A table whose buckets hold at most `cap` fingerprints each holds at most
/// `cap` times its size in all.
pub proof fn lemma_total_len_bound(t: Seq<Seq<Fingerprint>>, cap: nat)
    requires
        forall|k: int| 0 <= k < t.len() ==> (#[trigger] t[k]).len() <= cap,
    ensures
        total_len(t) <= t.len() * cap,
    decreases t.len(),
{
    if t.len() > 0 {
        lemma_total_len_bound(t.drop_last(), cap);
        assert(t.len() * cap == (t.len() - 1) * cap + cap) by (nonlinear_arith);
    }
}

/// No bucket holds more than the whole table.
pub proof fn lemma_total_len_covers(t: Seq<Seq<Fingerprint>>, k: int)
    requires
        0 <= k < t.len(),
    ensures
        t[k].len() <= total_len(t),
{
    lemma_total_len_update(t, k, Seq::empty());
}

/// A table of empty buckets holds nothing.
pub proof fn lemma_total_len_empty(t: Seq<Seq<Fingerprint>>)
    requires
        forall|k: int| 0 <= k < t.len() ==> (#[trigger] t[k]).len() == 0,
    ensures
        total_len(t) == 0,
    decreases t.len(),
{
    if t.len() > 0 {
        lemma_total_len_empty(t.drop_last());
    }
}

/// Appending a fingerprint adds one occurrence of it and none of any other.
pub proof fn lemma_occurrences_push(s: Seq<Fingerprint>, x: Fingerprint, fp: Fingerprint)
    ensures
        occurrences(s.push(x), fp) == occurrences(s, fp) + if x == fp { 1nat } else { 0nat },
{
    assert(s.push(x).drop_last() =~= s);
}

/// Overwriting a slot takes away one occurrence of the old fingerprint and adds
/// one of the new.
pub proof fn lemma_occurrences_update(s: Seq<Fingerprint>, j: int, x: Fingerprint, fp: Fingerprint)
    requires
        0 <= j < s.len(),
    ensures
        occurrences(s.update(j, x), fp) + (if s[j] == fp { 1nat } else { 0nat })
            == occurrences(s, fp) + if x == fp { 1nat } else { 0nat },
    decreases s.len(),
{
    let u = s.update(j, x);
    if j == s.len() - 1 {
        assert(u.drop_last() =~= s.drop_last());
    } else {
        assert(u.drop_last() =~= s.drop_last().update(j, x));
        lemma_occurrences_update(s.drop_last(), j, x, fp);
    }
}

/// Removing the fingerprint at a position takes away one occurrence of it and
/// none of any other.
pub proof fn lemma_occurrences_swap_removed(s: Seq<Fingerprint>, i: int, fp: Fingerprint)
    requires
        0 <= i < s.len(),
    ensures
        occurrences(swap_removed(s, i), fp) + (if s[i] == fp { 1nat } else { 0nat })
            == occurrences(s, fp),
{
    lemma_occurrences_update(s, i, s.last(), fp);
}

/// A fingerprint occurs at least once exactly when the sequence contains it.
pub proof fn lemma_occurrences_contains(s: Seq<Fingerprint>, fp: Fingerprint)
    ensures
        occurrences(s, fp) > 0 <==> s.contains(fp),
    decreases s.len(),
{
    if s.len() > 0 {
        let d = s.drop_last();
        lemma_occurrences_contains(d, fp);
        if s.contains(fp) {
            let i = choose|i: int| 0 <= i < s.len() && s[i] == fp;
            if i < s.len() - 1 {
                assert(d[i] == fp);
            }
        }
        if d.contains(fp) {
            let i = choose|i: int| 0 <= i < d.len() && d[i] == fp;
            assert(s[i] == fp);
        }
    }
}

/// The first index of a contained fingerprint is a position that holds it.
pub proof fn lemma_first_index_holds(s: Seq<Fingerprint>, fp: Fingerprint)
    requires
        s.contains(fp),
    ensures
        0 <= first_index(s, fp) < s.len(),
        s[first_index(s, fp)] == fp,
    decreases s.len(),
{
    if s[0] != fp {
        let t = s.subrange(1, s.len() as int);
        let i = choose|i: int| 0 <= i < s.len() && s[i] == fp;
        assert(t[i - 1] == fp);
        lemma_first_index_holds(t, fp);
    }
}

/// Table `u` holds what table `t` holds and one more copy of `gain`, stored
/// in bucket `gain_at` or in its pair: every lookup that reaches that pair
/// finds one more copy of `gain`, and every other lookup finds what it found.
pub open spec fn gained(
    t: Seq<Seq<Fingerprint>>,
    alts: Seq<usize>,
    u: Seq<Seq<Fingerprint>>,
    gain: Fingerprint,
    gain_at: usize,
) -> bool {
    &&& u.len() == t.len()
    &&& forall|fp: Fingerprint, b: usize|
        b < t.len() ==> #[trigger] reachable(u, alts, fp, b) == reachable(t, alts, fp, b) + credit(
            alts,
            t.len() as usize,
            gain,
            gain_at,
            fp,
            b,
        )
}

/// Table `u` holds what table `t` holds, with one more copy of `gain` in the
/// pair of bucket `gain_at` and one copy less of `loss` in the pair of bucket
/// `loss_at`.
pub open spec fn traded(
    t: Seq<Seq<Fingerprint>>,
    alts: Seq<usize>,
    u: Seq<Seq<Fingerprint>>,
    gain: Fingerprint,
    gain_at: usize,
    loss: Fingerprint,
    loss_at: usize,
) -> bool {
    &&& u.len() == t.len()
    &&& forall|fp: Fingerprint, b: usize|
        b < t.len() ==> #[trigger] reachable(u, alts, fp, b) + credit(
            alts,
            t.len() as usize,
            loss,
            loss_at,
            fp,
            b,
        ) == reachable(t, alts, fp, b) + credit(alts, t.len() as usize, gain, gain_at, fp, b)
}

/// A copy stored in either bucket of a pair is credited to the same lookups.
pub proof fn lemma_credit_same_pair(
    alts: Seq<usize>,
    n: usize,
    owner: Fingerprint,
    c: usize,
    d: usize,
    fp: Fingerprint,
    b: usize,
)
    requires
        is_pow2(n as int),
        c < n,
        d < n,
        b < n,
        in_pair(d, c, alts[owner.0 as int], n),
    ensures
        credit(alts, n, owner, d, fp, b) == credit(alts, n, owner, c, fp, b),
{
    lemma_alt_bucket_involution(c, alts[owner.0 as int], n);
    lemma_alt_bucket_involution(d, alts[owner.0 as int], n);
}

/// Replacing bucket `k` by `s` changes, for each fingerprint, what the lookups
/// that reach bucket `k` find by the change in that bucket, and nothing else.
pub proof fn lemma_reachable_after_update(
    t: Seq<Seq<Fingerprint>>,
    alts: Seq<usize>,
    k: usize,
    s: Seq<Fingerprint>,
    fp: Fingerprint,
    b: usize,
)
    requires
        is_pow2(t.len() as int),
        t.len() <= usize::MAX,
        k < t.len(),
        b < t.len(),
    ensures
        reachable(t.update(k as int, s), alts, fp, b) + (if in_pair(
            b,
            k,
            alts[fp.0 as int],
            t.len() as usize,
        ) {
            occurrences(t[k as int], fp)
        } else {
            0nat
        }) == reachable(t, alts, fp, b) + (if in_pair(b, k, alts[fp.0 as int], t.len() as usize) {
            occurrences(s, fp)
        } else {
            0nat
        }),
{
    let n = t.len() as usize;
    lemma_alt_bucket_involution(b, alts[fp.0 as int], n);
    lemma_alt_bucket_involution(k, alts[fp.0 as int], n);
}

/// Appending `gain` to bucket `k` gives a table that has gained one copy of it
/// for the pair of `k`.
pub proof fn lemma_gained_by_push(
    t: Seq<Seq<Fingerprint>>,
    alts: Seq<usize>,
    k: usize,
    gain: Fingerprint,
    c: usize,
)
    requires
        is_pow2(t.len() as int),
        t.len() <= usize::MAX,
        k < t.len(),
        c < t.len(),
        in_pair(k, c, alts[gain.0 as int], t.len() as usize),
    ensures
        gained(t, alts, t.update(k as int, t[k as int].push(gain)), gain, c),
{
    let n = t.len() as usize;
    let u = t.update(k as int, t[k as int].push(gain));
    assert forall|fp: Fingerprint, b: usize| b < t.len() implies #[trigger] reachable(
        u,
        alts,
        fp,
        b,
    ) == reachable(t, alts, fp, b) + credit(alts, n, gain, c, fp, b) by {
        lemma_reachable_after_update(t, alts, k, t[k as int].push(gain), fp, b);
        lemma_occurrences_push(t[k as int], gain, fp);
        lemma_credit_same_pair(alts, n, gain, c, k, fp, b);
    }
}

/// Removing the fingerprint at position `i` of bucket `k` gives a table from
/// which the old one is had back by gaining that fingerprint for the pair of `k`.
pub proof fn lemma_gained_by_remove(
    t: Seq<Seq<Fingerprint>>,
    alts: Seq<usize>,
    k: usize,
    i: int,
    c: usize,
)
    requires
        is_pow2(t.len() as int),
        t.len() <= usize::MAX,
        k < t.len(),
        c < t.len(),
        0 <= i < t[k as int].len(),
        in_pair(k, c, alts[t[k as int][i].0 as int], t.len() as usize),
    ensures
        gained(t.update(k as int, swap_removed(t[k as int], i)), alts, t, t[k as int][i], c),
{
    let n = t.len() as usize;
    let loss = t[k as int][i];
    let u = t.update(k as int, swap_removed(t[k as int], i));
    assert forall|fp: Fingerprint, b: usize| b < u.len() implies #[trigger] reachable(
        t,
        alts,
        fp,
        b,
    ) == reachable(u, alts, fp, b) + credit(alts, n, loss, c, fp, b) by {
        lemma_reachable_after_update(t, alts, k, swap_removed(t[k as int], i), fp, b);
        lemma_occurrences_swap_removed(t[k as int], i, fp);
        lemma_credit_same_pair(alts, n, loss, c, k, fp, b);
    }
}

/// Overwriting slot `j` of bucket `k` with `gain` trades the fingerprint that
/// was there for `gain`, both for the pair of `k`.
pub proof fn lemma_traded_by_replace(
    t: Seq<Seq<Fingerprint>>,
    alts: Seq<usize>,
    k: usize,
    j: int,
    gain: Fingerprint,
)
    requires
        is_pow2(t.len() as int),
        t.len() <= usize::MAX,
        k < t.len(),
        0 <= j < t[k as int].len(),
    ensures
        traded(
            t,
            alts,
            t.update(k as int, t[k as int].update(j, gain)),
            gain,
            k,
            t[k as int][j],
            k,
        ),
{
    let n = t.len() as usize;
    let loss = t[k as int][j];
    let u = t.update(k as int, t[k as int].update(j, gain));
    assert forall|fp: Fingerprint, b: usize| b < t.len() implies #[trigger] reachable(
        u,
        alts,
        fp,
        b,
    ) + credit(alts, n, loss, k, fp, b) == reachable(t, alts, fp, b) + credit(
        alts,
        n,
        gain,
        k,
        fp,
        b,
    ) by {
        lemma_reachable_after_update(t, alts, k, t[k as int].update(j, gain), fp, b);
        lemma_occurrences_update(t[k as int], j, gain, fp);
    }
}

/// A lookup finds a fingerprint in one of its two buckets exactly when it
/// reaches at least one copy.
pub proof fn lemma_reachable_contains(
    t: Seq<Seq<Fingerprint>>,
    alts: Seq<usize>,
    fp: Fingerprint,
    b: usize,
)
    requires
        b < t.len() <= usize::MAX,
    ensures
        reachable(t, alts, fp, b) > 0 <==> t[b as int].contains(fp) || t[alt_bucket(
            b,
            alts[fp.0 as int],
            t.len() as usize,
        ) as int].contains(fp),
{
    lemma_occurrences_contains(t[b as int], fp);
    lemma_occurrences_contains(t[alt_bucket(b, alts[fp.0 as int], t.len() as usize) as int], fp);
}

/// Before anything has moved, the fingerprint to be stored is itself the one
/// in flight: the table is unchanged, trading it for itself.
pub proof fn lemma_traded_start(
    t: Seq<Seq<Fingerprint>>,
    alts: Seq<usize>,
    gain: Fingerprint,
    c: usize,
    k: usize,
)
    requires
        is_pow2(t.len() as int),
        t.len() <= usize::MAX,
        c < t.len(),
        k < t.len(),
        in_pair(k, c, alts[gain.0 as int], t.len() as usize),
    ensures
        traded(t, alts, t, gain, c, gain, k),
{
    let n = t.len() as usize;
    assert forall|fp: Fingerprint, b: usize| b < t.len() implies #[trigger] reachable(
        t,
        alts,
        fp,
        b,
    ) + credit(alts, n, gain, k, fp, b) == reachable(t, alts, fp, b) + credit(
        alts,
        n,
        gain,
        c,
        fp,
        b,
    ) by {
        lemma_credit_same_pair(alts, n, gain, c, k, fp, b);
    }
}

/// One eviction keeps the trade going: the fingerprint in flight takes slot
/// `j` of bucket `k`, and the one that was there is now in flight, bound for
/// the bucket paired with `k`.
pub proof fn lemma_traded_step(
    t: Seq<Seq<Fingerprint>>,
    alts: Seq<usize>,
    u: Seq<Seq<Fingerprint>>,
    gain: Fingerprint,
    gain_at: usize,
    flying: Fingerprint,
    k: usize,
    j: int,
)
    requires
        is_pow2(t.len() as int),
        t.len() <= usize::MAX,
        k < t.len(),
        0 <= j < u[k as int].len(),
        traded(t, alts, u, gain, gain_at, flying, k),
    ensures
        traded(
            t,
            alts,
            u.update(k as int, u[k as int].update(j, flying)),
            gain,
            gain_at,
            u[k as int][j],
            alt_bucket(k, alts[u[k as int][j].0 as int], t.len() as usize),
        ),
{
    let n = t.len() as usize;
    let loss = u[k as int][j];
    let v = u.update(k as int, u[k as int].update(j, flying));
    let knext = alt_bucket(k, alts[loss.0 as int], n);
    lemma_traded_by_replace(u, alts, k, j, flying);
    lemma_alt_bucket_involution(k, alts[loss.0 as int], n);
    assert forall|fp: Fingerprint, b: usize| b < t.len() implies #[trigger] reachable(
        v,
        alts,
        fp,
        b,
    ) + credit(alts, n, loss, knext, fp, b) == reachable(t, alts, fp, b) + credit(
        alts,
        n,
        gain,
        gain_at,
        fp,
        b,
    ) by {
        lemma_credit_same_pair(alts, n, loss, k, knext, fp, b);
        assert(reachable(u, alts, fp, b) + credit(alts, n, flying, k, fp, b) == reachable(
            t,
            alts,
            fp,
            b,
        ) + credit(alts, n, gain, gain_at, fp, b));
    }
}

/// The trade ends when the fingerprint in flight finds room in its bucket: the
/// table has then gained exactly the fingerprint that was to be stored.
pub proof fn lemma_traded_settles(
    t: Seq<Seq<Fingerprint>>,
    alts: Seq<usize>,
    u: Seq<Seq<Fingerprint>>,
    gain: Fingerprint,
    gain_at: usize,
    flying: Fingerprint,
    k: usize,
)
    requires
        is_pow2(t.len() as int),
        t.len() <= usize::MAX,
        k < t.len(),
        traded(t, alts, u, gain, gain_at, flying, k),
    ensures
        gained(t, alts, u.update(k as int, u[k as int].push(flying)), gain, gain_at),
{
    let n = t.len() as usize;
    let v = u.update(k as int, u[k as int].push(flying));
    lemma_gained_by_push(u, alts, k, flying, k);
    assert forall|fp: Fingerprint, b: usize| b < t.len() implies #[trigger] reachable(
        v,
        alts,
        fp,
        b,
    ) == reachable(t, alts, fp, b) + credit(alts, n, gain, gain_at, fp, b) by {
        assert(reachable(u, alts, fp, b) + credit(alts, n, flying, k, fp, b) == reachable(
            t,
            alts,
            fp,
            b,
        ) + credit(alts, n, gain, gain_at, fp, b));
    }
}

/// A relocation under way: the table as it stands, the fingerprint in flight,
/// and the bucket that it is bound for.
pub struct Relocation {
    pub table: Seq<Seq<Fingerprint>>,
    pub flying: Fingerprint,
    pub at: usize,
}

/// The relocation that starts with `flying` bound for bucket `at` of table `t`.
pub open spec fn starting(t: Seq<Seq<Fingerprint>>, flying: Fingerprint, at: usize) -> Relocation {
    Relocation { table: t, flying, at }
}

/// One move: the fingerprint in flight is written into slot `slot` of its
/// bucket, and the fingerprint that was there is in flight instead, bound for
/// the bucket paired with that bucket.
pub open spec fn moved(alts: Seq<usize>, r: Relocation, slot: int) -> Relocation {
    let k = r.at as int;
    let evicted = r.table[k][slot];
    Relocation {
        table: r.table.update(k, r.table[k].update(slot, r.flying)),
        flying: evicted,
        at: alt_bucket(r.at, alts[evicted.0 as int], r.table.len() as usize),
    }
}

/// The moves through the slots in turn, one after the other.
pub open spec fn relocated(alts: Seq<usize>, start: Relocation, slots: Seq<int>) -> Relocation
    decreases slots.len(),
{
    if slots.len() == 0 {
        start
    } else {
        moved(alts, relocated(alts, start, slots.drop_last()), slots.last())
    }
}

/// Whether the fingerprint in flight finds its bucket full.
pub open spec fn blocked(r: Relocation) -> bool {
    r.table[r.at as int].len() >= BUCKET_SIZE
}

/// Every one of the moves ended at a full bucket.
pub open spec fn stuck(alts: Seq<usize>, start: Relocation, slots: Seq<int>) -> bool
    decreases slots.len(),
{
    if slots.len() == 0 {
        true
    } else {
        stuck(alts, start, slots.drop_last()) && blocked(relocated(alts, start, slots))
    }
}

/// Every slot is one of a bucket's `BUCKET_SIZE`.
pub open spec fn slots_in_range(slots: Seq<int>) -> bool {
    forall|p: int| 0 <= p < slots.len() ==> 0 <= #[trigger] slots[p] < BUCKET_SIZE
}

/// Table `u` is what the moves through `slots` leave when every one of them
/// ended at a full bucket: the last fingerprint in flight is not in it.
pub open spec fn exhausted(
    alts: Seq<usize>,
    start: Relocation,
    slots: Seq<int>,
    u: Seq<Seq<Fingerprint>>,
) -> bool {
    &&& slots_in_range(slots)
    &&& stuck(alts, start, slots)
    &&& u == relocated(alts, start, slots).table
}

/// Table `u` is what the moves through `slots` leave when all but the last
/// ended at a full bucket and the last at one with room, to which the
/// fingerprint in flight is appended.
pub open spec fn settled(
    alts: Seq<usize>,
    start: Relocation,
    slots: Seq<int>,
    u: Seq<Seq<Fingerprint>>,
) -> bool {
    let last = relocated(alts, start, slots);
    &&& slots.len() >= 1
    &&& slots_in_range(slots)
    &&& stuck(alts, start, slots.drop_last())
    &&& !blocked(last)
    &&& u == last.table.update(last.at as int, last.table[last.at as int].push(last.flying))
}

/// One more move after the moves through `slots` is the moves through `slots`
/// with its slot appended.
pub proof fn lemma_relocated_push(alts: Seq<usize>, start: Relocation, slots: Seq<int>, slot: int)
    ensures
        relocated(alts, start, slots.push(slot)) == moved(
            alts,
            relocated(alts, start, slots),
            slot,
        ),
        stuck(alts, start, slots.push(slot)) == (stuck(alts, start, slots) && blocked(
            relocated(alts, start, slots.push(slot)),
        )),
        slots_in_range(slots) && 0 <= slot < BUCKET_SIZE ==> slots_in_range(slots.push(slot)),
{
    assert(slots.push(slot).drop_last() =~= slots);
}

} // verus!
