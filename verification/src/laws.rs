//! What holds of every filter: the invariants, the involution of the
//! alternate index, and how `add`, `contains`, `delete`, `export` and
//! `recover` fit together.

use crate::bucket::{Fingerprint, BUCKET_SIZE};
use crate::codec::{decoded, encoded, lemma_decoded_encoded, recoverable};
use crate::index::{
    bucket_count_for, in_pair, lemma_alt_bucket_involution, lemma_bucket_count_for,
    lemma_next_power_of_two_least, lemma_power_of_two_63, next_power_of_two,
};
use crate::table::{credit, lemma_total_len_covers, reachable, total_len, traded};
use crate::util::{lemma_alt_index_involution, FaI};
use crate::CuckooFilter;
use vstd::arithmetic::power2::is_pow2;
use vstd::prelude::*;

verus! {

/// In a well-formed filter the number of buckets is a power of two and at
/// least one, and the count is the number of fingerprints in the table, which
/// is at most `BUCKET_SIZE` for each bucket.
pub proof fn invariants_hold<H>(filter: &CuckooFilter<H>)
    requires
        filter.wf(),
    ensures
        is_pow2(filter.bucket_count() as int),
        filter.bucket_count() >= 1,
        filter.spec_len() == total_len(filter.table()),
        0 <= filter.spec_len() <= filter.bucket_count() * BUCKET_SIZE,
{
    filter.lemma_len_bounded();
}

/// Whatever the capacity asked for, the number of buckets that it gives is a
/// power of two and at least one.
pub proof fn capacity_gives_power_of_two(cap: nat)
    ensures
        is_pow2(bucket_count_for(cap) as int),
        bucket_count_for(cap) >= 1,
{
    reveal(is_pow2);
    lemma_bucket_count_for(cap);
}

/// A capacity of up to two to the power of 31 is within reach of every
/// machine, and one of up to two to the power of 63 is within reach of every
/// machine whose words hold as much: its slots can be counted in a word,
/// which is all that `with_capacity` asks.
pub proof fn capacity_within_reach(cap: u64)
    ensures
        cap <= 0x8000_0000 ==> next_power_of_two(cap as nat) <= usize::MAX,
        cap <= 0x8000_0000_0000_0000 && usize::MAX >= 0x8000_0000_0000_0000
            ==> next_power_of_two(cap as nat) <= usize::MAX,
{
    lemma_power_of_two_63();
    if cap <= 0x8000_0000 {
        lemma_next_power_of_two_least(cap as nat, 0x8000_0000);
    }
    if cap <= 0x8000_0000_0000_0000 {
        lemma_next_power_of_two_least(cap as nat, 0x8000_0000_0000_0000);
    }
}

/// A filter whose count is zero holds nothing: no lookup finds anything.
pub proof fn empty_contains_nothing<H>(filter: &CuckooFilter<H>, fai: FaI)
    requires
        filter.wf(),
        filter.spec_len() == 0,
    ensures
        !filter.spec_contains(fai),
{
    filter.lemma_len_bounded();
    lemma_total_len_covers(filter.table(), filter.bucket_of(fai.i1));
    lemma_total_len_covers(filter.table(), filter.bucket_of(fai.i2));
}

/// The alternate of the alternate of an index is the index, for every
/// fingerprint.
pub proof fn alternate_is_involution<H>(filter: &CuckooFilter<H>, fp: Fingerprint, i: usize)
    ensures
        filter.spec_alt(fp, filter.spec_alt(fp, i)) == i,
{
    lemma_alt_index_involution(filter.alt_hashes()[fp.0 as int], i);
}

/// The two indices of a derived value are each the alternate of the other.
pub proof fn indices_are_alternates<H>(filter: &CuckooFilter<H>, fai: FaI)
    requires
        filter.derives(fai),
    ensures
        filter.spec_alt(fai.fp, fai.i1) == fai.i2,
        filter.spec_alt(fai.fp, fai.i2) == fai.i1,
{
    lemma_alt_index_involution(filter.alt_hashes()[fai.fp.0 as int], fai.i1);
}

/// Right after a value has been added with success, a lookup finds it.
pub proof fn added_is_found<H>(pre: &CuckooFilter<H>, fai: FaI, post: &CuckooFilter<H>)
    requires
        pre.wf(),
        post.wf(),
        pre.derives(fai),
        CuckooFilter::added(pre, fai, post, true),
    ensures
        post.spec_contains(fai),
{
    post.lemma_found_after_gain(pre, fai);
}

/// Adding a value with success loses nothing: whatever a lookup found before,
/// it finds afterwards.
pub proof fn added_keeps_others<H>(
    pre: &CuckooFilter<H>,
    fai: FaI,
    post: &CuckooFilter<H>,
    other: FaI,
)
    requires
        pre.wf(),
        post.wf(),
        pre.derives(fai),
        pre.derives(other),
        CuckooFilter::added(pre, fai, post, true),
        pre.spec_contains(other),
    ensures
        post.spec_contains(other),
{
    pre.lemma_buckets_paired(other);
    pre.lemma_contains_is_reachable(other);
    post.lemma_contains_is_reachable(other);
    let c = pre.bucket_of(other.i1) as usize;
    assert(reachable(post.table(), post.alt_hashes(), other.fp, c) >= reachable(
        pre.table(),
        pre.alt_hashes(),
        other.fp,
        c,
    ));
}

/// An addition that fails loses one stored copy at most: of two values that
/// lookups found before and that do not share both fingerprint and buckets,
/// one at least is still found.
pub proof fn failed_add_loses_one_at_most<H>(
    pre: &CuckooFilter<H>,
    fai: FaI,
    post: &CuckooFilter<H>,
    one: FaI,
    other: FaI,
)
    requires
        pre.wf(),
        post.wf(),
        pre.derives(fai),
        pre.derives(one),
        pre.derives(other),
        CuckooFilter::added(pre, fai, post, false),
        pre.spec_contains(one),
        pre.spec_contains(other),
        one.fp != other.fp || !in_pair(
            pre.bucket_of(one.i1) as usize,
            pre.bucket_of(other.i1) as usize,
            pre.alt_hashes()[one.fp.0 as int],
            pre.bucket_count(),
        ),
    ensures
        post.spec_len() == pre.spec_len(),
        post.spec_contains(one) || post.spec_contains(other),
{
    let t = pre.table();
    let u = post.table();
    let alts = pre.alt_hashes();
    let n = pre.bucket_count();
    let a = pre.bucket_of(one.i1) as usize;
    let b = pre.bucket_of(other.i1) as usize;
    pre.lemma_len_bounded();
    pre.lemma_buckets_paired(one);
    pre.lemma_buckets_paired(other);
    pre.lemma_contains_is_reachable(one);
    pre.lemma_contains_is_reachable(other);
    post.lemma_contains_is_reachable(one);
    post.lemma_contains_is_reachable(other);
    let (loss, at) = choose|loss: Fingerprint, at: usize|
        at < t.len() && loss.is_valid() && #[trigger] traded(
            t,
            alts,
            u,
            fai.fp,
            pre.bucket_of(fai.i1) as usize,
            loss,
            at,
        );
    // Each of the two is lost only if the lost copy was stored for it.
    assert(reachable(u, alts, one.fp, a) + credit(alts, n, loss, at, one.fp, a) >= reachable(
        t,
        alts,
        one.fp,
        a,
    ));
    assert(reachable(u, alts, other.fp, b) + credit(alts, n, loss, at, other.fp, b) >= reachable(
        t,
        alts,
        other.fp,
        b,
    ));
    if !post.spec_contains(one) && !post.spec_contains(other) {
        lemma_alt_bucket_involution(a, alts[loss.0 as int], n);
        lemma_alt_bucket_involution(b, alts[loss.0 as int], n);
        lemma_alt_bucket_involution(at, alts[loss.0 as int], n);
    }
}

/// A deletion that returns true takes exactly one off the count, and one that
/// returns false leaves the filter as it was.
pub proof fn delete_takes_one<H>(
    pre: &CuckooFilter<H>,
    fai: FaI,
    post: &CuckooFilter<H>,
    removed: bool,
)
    requires
        pre.wf(),
        post.wf(),
        CuckooFilter::deleted(pre, fai, post, removed),
    ensures
        removed ==> post.spec_len() == pre.spec_len() - 1,
        removed ==> total_len(post.table()) == total_len(pre.table()) - 1,
        !removed ==> post.spec_len() == pre.spec_len() && post.table() == pre.table(),
{
}

/// A filter recovered from what another exported, with that filter's count,
/// has the same table and count, and so answers every lookup as it does.
pub proof fn recovered_agrees<H>(filter: &CuckooFilter<H>, recovered: &CuckooFilter<H>, fai: FaI)
    requires
        filter.wf(),
        recovered.table() == decoded(encoded(filter.table())),
        recovered.spec_len() == filter.spec_len(),
    ensures
        recoverable(encoded(filter.table()), filter.spec_len()),
        recovered.table() == filter.table(),
        recovered.spec_contains(fai) == filter.spec_contains(fai),
{
    lemma_decoded_encoded(filter.table());
}

/// Sum of the weights.
pub open spec fn sum(w: Seq<nat>) -> nat
    decreases w.len(),
{
    if w.len() == 0 {
        0
    } else {
        sum(w.drop_last()) + w.last()
    }
}

/// Sum of the weights at the listed positions.
pub open spec fn sum_at(w: Seq<nat>, at: Seq<int>) -> nat
    decreases at.len(),
{
    if at.len() == 0 {
        0
    } else {
        sum_at(w, at.drop_last()) + w[at.last()]
    }
}

/// The listed positions lie below `m` and none is listed twice.
pub open spec fn distinct_below(at: Seq<int>, m: nat) -> bool {
    &&& forall|i: int| 0 <= i < at.len() ==> 0 <= #[trigger] at[i] < m
    &&& forall|i: int, j: int| 0 <= i < j < at.len() ==> at[i] != at[j]
}

proof fn lemma_sum_at_agree(w: Seq<nat>, v: Seq<nat>, at: Seq<int>)
    requires
        forall|i: int| 0 <= i < at.len() ==> w[#[trigger] at[i]] == v[at[i]],
    ensures
        sum_at(w, at) == sum_at(v, at),
    decreases at.len(),
{
    if at.len() > 0 {
        lemma_sum_at_agree(w, v, at.drop_last());
    }
}

proof fn lemma_sum_at_remove(w: Seq<nat>, at: Seq<int>, p: int)
    requires
        0 <= p < at.len(),
    ensures
        sum_at(w, at) == sum_at(w, at.remove(p)) + w[at[p]],
    decreases at.len(),
{
    if p < at.len() - 1 {
        lemma_sum_at_remove(w, at.drop_last(), p);
        assert(at.remove(p).drop_last() =~= at.drop_last().remove(p));
    }
}

/// Distinct positions are no more than there are weights and pick no more
/// than the whole sum; where they are as many, they pick the whole sum.
pub proof fn lemma_sum_at_bound(w: Seq<nat>, at: Seq<int>)
    requires
        distinct_below(at, w.len()),
    ensures
        at.len() <= w.len(),
        sum_at(w, at) <= sum(w),
        at.len() == w.len() ==> sum_at(w, at) == sum(w),
    decreases w.len(),
{
    if w.len() == 0 {
        // No position lies below zero, so none is listed.
        if at.len() > 0 {
            assert(0 <= at[0]);
        }
    } else {
        let top = w.len() - 1;
        let v = w.drop_last();
        if exists|p: int| 0 <= p < at.len() && at[p] == top {
            let p = choose|p: int| 0 <= p < at.len() && at[p] == top;
            let rest = at.remove(p);
            // Without the top position, the rest lies below it.
            assert(distinct_below(rest, v.len()));
            lemma_sum_at_remove(w, at, p);
            lemma_sum_at_agree(w, v, rest);
            lemma_sum_at_bound(v, rest);
        } else {
            assert(distinct_below(at, v.len()));
            lemma_sum_at_agree(w, v, at);
            lemma_sum_at_bound(v, at);
        }
    }
}

/// For each item of the batch, whether a lookup of `fp` from bucket `b`
/// reaches the place where the filter stores that item.
pub open spec fn weights<H>(
    filter: &CuckooFilter<H>,
    batch: Seq<FaI>,
    fp: Fingerprint,
    b: usize,
) -> Seq<nat> {
    Seq::new(
        batch.len(),
        |i: int|
            credit(
                filter.alt_hashes(),
                filter.bucket_count(),
                batch[i].fp,
                filter.bucket_of(batch[i].i1) as usize,
                fp,
                b,
            ),
    )
}

/// A run in which every item of the batch is added with success and then the
/// items are deleted, each once, in the order that `order` lists them by
/// position in the batch. `states` holds the filter before and after each
/// step, and `removed` what each deletion returned.
pub open spec fn batch_run<H>(
    states: Seq<CuckooFilter<H>>,
    batch: Seq<FaI>,
    order: Seq<int>,
    removed: Seq<bool>,
) -> bool {
    let m = batch.len() as int;
    &&& states.len() == 2 * m + 1
    &&& order.len() == m
    &&& removed.len() == m
    &&& distinct_below(order, batch.len())
    &&& forall|i: int| 0 <= i <= 2 * m ==> (#[trigger] states[i]).wf()
    &&& forall|i: int| 0 <= i < m ==> states[0].derives(#[trigger] batch[i])
    &&& forall|i: int|
        0 <= i < m ==> CuckooFilter::added(&states[i], batch[i], #[trigger] &states[i + 1], true)
    &&& forall|i: int|
        0 <= i < m ==> CuckooFilter::deleted(
            &states[m + i],
            batch[order[i]],
            #[trigger] &states[m + i + 1],
            removed[i],
        )
}

proof fn lemma_after_adds<H>(
    states: Seq<CuckooFilter<H>>,
    batch: Seq<FaI>,
    order: Seq<int>,
    removed: Seq<bool>,
    i: int,
)
    requires
        batch_run(states, batch, order, removed),
        0 <= i <= batch.len(),
    ensures
        states[i].alt_hashes() == states[0].alt_hashes(),
        states[i].table().len() == states[0].table().len(),
        states[i].spec_len() == states[0].spec_len() + i,
        forall|fp: Fingerprint, b: usize|
            b < states[0].table().len() ==> #[trigger] reachable(
                states[i].table(),
                states[0].alt_hashes(),
                fp,
                b,
            ) == reachable(states[0].table(), states[0].alt_hashes(), fp, b) + sum(
                weights(&states[0], batch, fp, b).take(i),
            ),
    decreases i,
{
    let alts = states[0].alt_hashes();
    if i > 0 {
        lemma_after_adds(states, batch, order, removed, i - 1);
        let pre = states[i - 1];
        let post = states[i - 1 + 1];
        assert forall|fp: Fingerprint, b: usize|
            b < states[0].table().len() implies #[trigger] reachable(post.table(), alts, fp, b)
            == reachable(states[0].table(), alts, fp, b) + sum(
            weights(&states[0], batch, fp, b).take(i),
        ) by {
            let w = weights(&states[0], batch, fp, b);
            assert(w.take(i).drop_last() =~= w.take(i - 1));
            assert(reachable(post.table(), alts, fp, b) == reachable(pre.table(), alts, fp, b)
                + w[i - 1]);
        }
    }
}

proof fn lemma_after_deletes<H>(
    states: Seq<CuckooFilter<H>>,
    batch: Seq<FaI>,
    order: Seq<int>,
    removed: Seq<bool>,
    i: int,
)
    requires
        batch_run(states, batch, order, removed),
        0 <= i <= batch.len(),
    ensures
        states[batch.len() + i].alt_hashes() == states[0].alt_hashes(),
        states[batch.len() + i].table().len() == states[0].table().len(),
        states[batch.len() + i].spec_len() == states[0].spec_len() + batch.len() - i,
        forall|j: int| 0 <= j < i ==> removed[j],
        forall|fp: Fingerprint, b: usize|
            b < states[0].table().len() ==> #[trigger] reachable(
                states[batch.len() + i].table(),
                states[0].alt_hashes(),
                fp,
                b,
            ) + sum_at(weights(&states[0], batch, fp, b), order.take(i)) == reachable(
                states[0].table(),
                states[0].alt_hashes(),
                fp,
                b,
            ) + sum(weights(&states[0], batch, fp, b)),
    decreases i,
{
    let m = batch.len() as int;
    let alts = states[0].alt_hashes();
    let n = states[0].bucket_count();
    lemma_after_adds(states, batch, order, removed, m);
    states[0].lemma_len_bounded();
    if i == 0 {
        assert forall|fp: Fingerprint, b: usize|
            b < states[0].table().len() implies #[trigger] reachable(
            states[m + 0].table(),
            alts,
            fp,
            b,
        )
            + sum_at(weights(&states[0], batch, fp, b), order.take(0)) == reachable(
            states[0].table(),
            alts,
            fp,
            b,
        ) + sum(weights(&states[0], batch, fp, b)) by {
            let w = weights(&states[0], batch, fp, b);
            assert(w.take(m) =~= w);
        }
    } else {
        lemma_after_deletes(states, batch, order, removed, i - 1);
        let pre = states[m + (i - 1)];
        let post = states[m + (i - 1) + 1];
        let item = batch[order[i - 1]];
        let c = states[0].bucket_of(item.i1) as usize;
        assert(order.take(i).drop_last() =~= order.take(i - 1));
        // The item is still there: no more than the batch has been taken out.
        let own = weights(&states[0], batch, item.fp, c);
        lemma_sum_at_bound(own, order.take(i));
        assert(reachable(pre.table(), alts, item.fp, c) > 0);
        pre.lemma_contains_is_reachable(item);
        assert(removed[i - 1]);
        assert forall|fp: Fingerprint, b: usize|
            b < states[0].table().len() implies #[trigger] reachable(post.table(), alts, fp, b)
            + sum_at(weights(&states[0], batch, fp, b), order.take(i)) == reachable(
            states[0].table(),
            alts,
            fp,
            b,
        ) + sum(weights(&states[0], batch, fp, b)) by {
            let w = weights(&states[0], batch, fp, b);
            assert(reachable(pre.table(), alts, fp, b) == reachable(post.table(), alts, fp, b)
                + credit(alts, n, item.fp, c, fp, b));
        }
    }
}

/// When every item of a batch has been added with success and the same items
/// are then deleted, each once and in any order, every deletion returns true
/// and the count is back at what it was before the batch: at zero for a
/// filter that was empty. Every lookup then reaches as many copies as before.
pub proof fn batch_added_then_deleted<H>(
    states: Seq<CuckooFilter<H>>,
    batch: Seq<FaI>,
    order: Seq<int>,
    removed: Seq<bool>,
)
    requires
        batch_run(states, batch, order, removed),
    ensures
        forall|i: int| 0 <= i < batch.len() ==> removed[i],
        states[2 * batch.len() as int].spec_len() == states[0].spec_len(),
        forall|fp: Fingerprint, b: usize|
            b < states[0].table().len() ==> #[trigger] reachable(
                states[2 * batch.len() as int].table(),
                states[0].alt_hashes(),
                fp,
                b,
            ) == reachable(states[0].table(), states[0].alt_hashes(), fp, b),
{
    let m = batch.len() as int;
    lemma_after_deletes(states, batch, order, removed, m);
    assert(order.take(m) =~= order);
    assert forall|fp: Fingerprint, b: usize|
        b < states[0].table().len() implies #[trigger] reachable(
        states[2 * m].table(),
        states[0].alt_hashes(),
        fp,
        b,
    ) == reachable(states[0].table(), states[0].alt_hashes(), fp, b) by {
        lemma_sum_at_bound(weights(&states[0], batch, fp, b), order);
    }
}

} // verus!
