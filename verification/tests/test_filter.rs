use cuckoofilter::bucket::Fingerprint;
use cuckoofilter::util::FaI;
use rand::rngs::StdRng;
use rand::{Rng, SeedableRng};
use cuckoofilter::{CuckooError, CuckooFilter, DEFAULT_CAPACITY, DEFAULT_SEED, MAX_REBUCKET};
use std::collections::hash_map::DefaultHasher;
use std::hash::Hasher;

/// A hasher whose value is the last integer written to it.
#[derive(Default)]
struct Plain {
    value: u64,
}

impl Hasher for Plain {
    fn finish(&self) -> u64 {
        self.value
    }

    fn write(&mut self, bytes: &[u8]) {
        for byte in bytes {
            self.value += u64::from(*byte);
        }
    }

    fn write_u8(&mut self, i: u8) {
        self.value = u64::from(i);
    }

    fn write_u64(&mut self, i: u64) {
        self.value = i;
    }
}

/// Number of fingerprints in an exported table.
fn stored(bytes: &[u8]) -> usize {
    bytes.iter().filter(|byte| **byte != 0).count()
}

#[test]
fn constants_of_the_filter() {
    assert_eq!(MAX_REBUCKET, 500);
    assert_eq!(DEFAULT_CAPACITY, (1 << 20) - 1);
    assert_eq!(DEFAULT_SEED, 0);
}

#[test]
fn same_seed_gives_the_same_evictions() {
    let mut one = CuckooFilter::<DefaultHasher>::with_capacity(1024);
    let mut two = CuckooFilter::<DefaultHasher>::with_capacity(1024);
    one.reseed(7);
    two.reseed(7);
    for i in 0..1024u32 {
        assert_eq!(one.add(&i).is_ok(), two.add(&i).is_ok());
    }
    assert_eq!(one.len(), two.len());
    assert_eq!(one.export(), two.export());
    // The filter is close to full, so fingerprints have been moved.
    assert!(one.len() > 900);
}

#[test]
fn a_new_filter_starts_from_the_default_seed() {
    let mut one = CuckooFilter::<DefaultHasher>::with_capacity(1024);
    let mut two = CuckooFilter::<DefaultHasher>::with_capacity(1024);
    two.reseed(DEFAULT_SEED);
    for i in 0..1024u32 {
        assert_eq!(one.add(&i).is_ok(), two.add(&i).is_ok());
    }
    assert_eq!(one.export(), two.export());
}

#[test]
fn reseeding_leaves_the_table_alone() {
    let mut cf = CuckooFilter::<DefaultHasher>::with_capacity(64);
    for i in 0..40u32 {
        assert!(cf.add(&i).is_ok());
    }
    let bytes = cf.export();
    cf.reseed(99);
    assert_eq!(cf.export(), bytes);
    assert_eq!(cf.len(), 40);
    for i in 0..40u32 {
        assert!(cf.contains(&i));
    }
}

#[test]
fn fresh_filter() {
    let cf = CuckooFilter::new();
    assert_eq!(cf.len(), 0);
    assert!(cf.is_empty());
    assert!(!cf.contains("foo"));
    assert_eq!(cf.export().len(), 1 << 20);
}

#[test]
fn default_filter_is_a_new_one() {
    let cf: CuckooFilter<DefaultHasher> = Default::default();
    assert_eq!(cf.len(), 0);
    assert!(cf.is_empty());
    assert_eq!(cf.export().len(), 1 << 20);
}

#[test]
fn single_insert() {
    let mut cf = CuckooFilter::new();
    assert!(cf.add("foo").is_ok());
    assert_eq!(cf.len(), 1);
    assert!(cf.contains("foo"));
    assert!(cf.delete("foo"));
    assert_eq!(cf.len(), 0);
    assert!(!cf.contains("foo"));
}

#[test]
fn set_style_use() {
    let words = vec!["foo", "bar", "xylophone", "milagro"];
    let mut cf = CuckooFilter::new();

    let mut insertions = 0;
    for s in &words {
        if cf.test_and_add(s).unwrap() {
            insertions += 1;
        }
    }

    assert_eq!(insertions, words.len());
    assert_eq!(cf.len(), words.len());

    // Re-add the first element.
    assert!(cf.add(words[0]).is_ok());

    assert_eq!(cf.len(), words.len() + 1);

    for s in &words {
        cf.delete(s);
    }

    assert_eq!(cf.len(), 1);
    assert!(!cf.is_empty());

    cf.delete(words[0]);

    assert_eq!(cf.len(), 0);
    assert!(cf.is_empty());
}

#[test]
fn test_and_add_leaves_a_present_item_alone() {
    let mut cf = CuckooFilter::<DefaultHasher>::with_capacity(64);
    assert_eq!(cf.test_and_add("foo").unwrap(), true);
    let before = cf.export();
    assert_eq!(cf.test_and_add("foo").unwrap(), false);
    assert_eq!(cf.len(), 1);
    assert_eq!(cf.export(), before);
}

#[test]
fn saturation() {
    let cap: u64 = 1_000_000;
    let mut cf = CuckooFilter::<DefaultHasher>::with_capacity(cap);
    let mut successes: u64 = 0;
    for i in 0..cap {
        match cf.add(&i) {
            Ok(_) => successes += 1,
            Err(CuckooError::NotEnoughSpace) => break,
        }
    }
    assert_eq!(cf.len() as u64, successes);
    for i in 0..successes {
        assert!(cf.contains(&i));
    }
}

#[test]
fn capacity_gives_the_number_of_buckets() {
    let sizes: [(u64, usize); 9] =
        [(0, 1), (1, 1), (3, 1), (4, 1), (5, 2), (8, 2), (9, 4), (16, 4), (17, 8)];
    for (cap, buckets) in sizes {
        let cf = CuckooFilter::<DefaultHasher>::with_capacity(cap);
        assert_eq!(cf.export().len(), buckets * 4);
        assert_eq!(cf.len(), 0);
    }
    let cf = CuckooFilter::<DefaultHasher>::with_capacity(1_000_000);
    assert_eq!(cf.export().len(), 1 << 20);
}

#[test]
fn fai_of_uses_the_filters_hasher() {
    let cf = CuckooFilter::<Plain>::with_capacity(16);
    let fai = cf.fai_of(&0x0500_0002u64);
    assert_eq!(fai.fp, Fingerprint(5));
    assert_eq!(fai.i1, 0x0500_0002);
    assert_eq!(fai.i2, 0x0500_0002 ^ 5);
    assert_eq!(cf.alt_index(Fingerprint(5), 0x0500_0002), 0x0500_0007);
    assert_eq!(cf.alt_index(Fingerprint(5), 0x0500_0007), 0x0500_0002);
}

#[test]
fn alternate_of_the_alternate_is_the_index() {
    let cf = CuckooFilter::<DefaultHasher>::with_capacity(16);
    for value in 1..=255u8 {
        for i in [0usize, 1, 77, 0xffff_ffff] {
            let alt = cf.alt_index(Fingerprint(value), i);
            assert_eq!(cf.alt_index(Fingerprint(value), alt), i);
        }
    }
}

#[test]
fn put_fills_the_bucket_of_the_index() {
    let mut cf = CuckooFilter::<Plain>::with_capacity(16);
    assert!(cf.put(Fingerprint(7), 2));
    assert!(cf.put(Fingerprint(8), 6));
    assert!(cf.put(Fingerprint(9), 3));
    assert_eq!(cf.len(), 3);
    assert_eq!(cf.export(), vec![0, 0, 0, 0, 0, 0, 0, 0, 7, 8, 0, 0, 9, 0, 0, 0]);
    assert!(cf.put(Fingerprint(1), 2));
    assert!(cf.put(Fingerprint(2), 2));
    assert!(!cf.put(Fingerprint(3), 2));
    assert_eq!(cf.len(), 5);
    assert_eq!(cf.export(), vec![0, 0, 0, 0, 0, 0, 0, 0, 7, 8, 1, 2, 9, 0, 0, 0]);
}

#[test]
fn remove_takes_one_copy_from_the_bucket_of_the_index() {
    let mut cf = CuckooFilter::<Plain>::with_capacity(16);
    cf.put(Fingerprint(7), 1);
    cf.put(Fingerprint(8), 1);
    cf.put(Fingerprint(7), 1);
    assert!(!cf.remove(Fingerprint(7), 0));
    assert!(!cf.remove(Fingerprint(9), 1));
    assert_eq!(cf.len(), 3);
    assert!(cf.remove(Fingerprint(7), 5));
    assert_eq!(cf.len(), 2);
    assert_eq!(cf.export(), vec![0, 0, 0, 0, 7, 8, 0, 0, 0, 0, 0, 0, 0, 0, 0, 0]);
    assert!(cf.remove(Fingerprint(7), 1));
    assert!(!cf.remove(Fingerprint(7), 1));
    assert_eq!(cf.len(), 1);
    assert_eq!(cf.export(), vec![0, 0, 0, 0, 8, 0, 0, 0, 0, 0, 0, 0, 0, 0, 0, 0]);
}

#[test]
fn kick_swaps_a_slot_and_names_the_alternate() {
    let mut cf = CuckooFilter::<Plain>::with_capacity(16);
    cf.put(Fingerprint(7), 2);
    cf.put(Fingerprint(8), 2);
    let (evicted, next) = cf.kick(Fingerprint(9), 6, 1);
    assert_eq!(evicted, Fingerprint(8));
    assert_eq!(next, 6 ^ 8);
    assert_eq!(cf.len(), 2);
    assert_eq!(cf.export(), vec![0, 0, 0, 0, 0, 0, 0, 0, 7, 9, 0, 0, 0, 0, 0, 0]);
}

#[test]
fn add_prefers_the_first_bucket_then_the_second() {
    let mut cf = CuckooFilter::<Plain>::with_capacity(16);
    // Fingerprint 5, first bucket 0, second bucket 1.
    for k in 0..4u64 {
        assert!(cf.add(&(0x0500_0000 + 4 * k)).is_ok());
    }
    assert_eq!(cf.export(), vec![5, 5, 5, 5, 0, 0, 0, 0, 0, 0, 0, 0, 0, 0, 0, 0]);
    assert!(cf.add(&0x0500_0000u64).is_ok());
    assert_eq!(cf.export(), vec![5, 5, 5, 5, 5, 0, 0, 0, 0, 0, 0, 0, 0, 0, 0, 0]);
    assert_eq!(cf.len(), 5);
}

#[test]
fn add_fails_when_no_move_makes_room() {
    let mut cf = CuckooFilter::<Plain>::with_capacity(16);
    // Eight items with fingerprint 5 fill buckets 0 and 1, which are each
    // other's alternates for that fingerprint.
    for k in 0..8u64 {
        assert!(cf.add(&(0x0500_0000 + 4 * k)).is_ok());
    }
    assert_eq!(cf.len(), 8);
    let full = vec![5, 5, 5, 5, 5, 5, 5, 5, 0, 0, 0, 0, 0, 0, 0, 0];
    assert_eq!(cf.export(), full);
    let result = cf.add(&0x0500_0020u64);
    assert!(matches!(result, Err(CuckooError::NotEnoughSpace)));
    assert_eq!(cf.len(), 8);
    assert_eq!(cf.export(), full);
    // Fingerprint 4 has bucket 0 as both of its buckets.
    let result = cf.test_and_add(&0x0400_0000u64);
    assert!(matches!(result, Err(CuckooError::NotEnoughSpace)));
    assert_eq!(cf.len(), 8);
    let bytes = cf.export();
    assert_eq!(stored(&bytes), 8);
    assert_eq!(stored(&bytes[0..8]), 8);
    assert!(bytes.iter().filter(|byte| **byte == 5).count() >= 7);
}

#[test]
fn a_single_bucket_takes_four() {
    let mut cf = CuckooFilter::<DefaultHasher>::with_capacity(4);
    for i in 0..4u32 {
        assert!(cf.add(&i).is_ok());
    }
    assert_eq!(cf.len(), 4);
    assert!(matches!(cf.add(&4u32), Err(CuckooError::NotEnoughSpace)));
    assert_eq!(cf.len(), 4);
    assert_eq!(stored(&cf.export()), 4);
}

#[test]
fn a_move_makes_room() {
    let mut cf = CuckooFilter::<Plain>::with_capacity(16);
    // Bucket 0 gets four copies of fingerprint 6, whose other bucket is 2;
    // bucket 1 gets four copies of fingerprint 7, whose other bucket is 6 % 4.
    for k in 0..4u64 {
        assert!(cf.add(&(0x0600_0000 + 4 * k)).is_ok());
        assert!(cf.add(&(0x0700_0001 + 4 * k)).is_ok());
    }
    assert_eq!(cf.export(), vec![6, 6, 6, 6, 7, 7, 7, 7, 0, 0, 0, 0, 0, 0, 0, 0]);
    // Fingerprint 5 with buckets 0 and 1: both are full, so one stored
    // fingerprint has to move to bucket 2.
    assert!(cf.add(&0x0500_0000u64).is_ok());
    assert_eq!(cf.len(), 9);
    let bytes = cf.export();
    assert_eq!(stored(&bytes), 9);
    assert_eq!(stored(&bytes[0..8]), 8);
    assert_eq!(stored(&bytes[8..12]), 1);
    assert!(bytes[8] == 6 || bytes[8] == 7);
    assert_eq!(bytes[0..8].iter().filter(|byte| **byte == 5).count(), 1);
    assert!(cf.contains(&0x0500_0000u64));
    for k in 0..4u64 {
        assert!(cf.contains(&(0x0600_0000 + 4 * k)));
        assert!(cf.contains(&(0x0700_0001 + 4 * k)));
    }
}

#[test]
fn fai_level_operations() {
    let mut cf = CuckooFilter::<Plain>::with_capacity(16);
    let fai = FaI { fp: Fingerprint(5), i1: 8, i2: 8 ^ 5 };
    assert!(!cf.contains_fai(&fai));
    assert!(!cf.delete_fai(&fai));
    assert!(cf.add_fai(&fai).is_ok());
    assert!(cf.contains_fai(&fai));
    assert_eq!(cf.test_and_add_fai(&fai).unwrap(), false);
    assert_eq!(cf.len(), 1);
    assert!(cf.delete_fai(&fai));
    assert!(!cf.contains_fai(&fai));
    assert_eq!(cf.test_and_add_fai(&fai).unwrap(), true);
    assert_eq!(cf.len(), 1);
    assert_eq!(cf.export(), vec![5, 0, 0, 0, 0, 0, 0, 0, 0, 0, 0, 0, 0, 0, 0, 0]);
}

#[test]
fn delete_finds_the_copy_in_the_second_bucket() {
    let mut cf = CuckooFilter::<Plain>::with_capacity(16);
    let fai = FaI { fp: Fingerprint(5), i1: 0, i2: 5 };
    assert!(cf.put(Fingerprint(5), 5));
    assert!(cf.contains_fai(&fai));
    assert!(cf.delete_fai(&fai));
    assert_eq!(cf.len(), 0);
    assert!(!cf.delete_fai(&fai));
}

#[test]
fn delete_takes_exactly_one() {
    let mut cf = CuckooFilter::<DefaultHasher>::with_capacity(1000);
    for i in 0..500u32 {
        assert!(cf.add(&i).is_ok());
    }
    for i in 0..500u32 {
        let before = cf.len();
        let removed = cf.delete(&i);
        assert!(removed);
        assert_eq!(cf.len(), before - 1);
    }
    let before = cf.len();
    assert!(!cf.delete(&12345u32));
    assert_eq!(cf.len(), before);
}

#[test]
fn added_item_is_found_at_once() {
    let mut cf = CuckooFilter::<DefaultHasher>::with_capacity(4096);
    for i in 0..3900u32 {
        if cf.add(&i).is_ok() {
            assert!(cf.contains(&i));
        }
    }
}

#[test]
fn invariants_after_every_operation() {
    let mut cf = CuckooFilter::<DefaultHasher>::with_capacity(256);
    for step in 0..600u32 {
        if step % 3 == 2 {
            cf.delete(&(step / 2));
        } else {
            let _ = cf.add(&step);
        }
        let bytes = cf.export();
        let buckets = bytes.len() / 4;
        assert_eq!(bytes.len() % 4, 0);
        assert!(buckets >= 1 && buckets.is_power_of_two());
        assert_eq!(buckets, 64);
        assert!(cf.len() <= buckets * 4);
        assert_eq!(cf.len(), stored(&bytes));
    }
}

#[test]
fn batch_in_and_out_in_another_order() {
    let mut cf = CuckooFilter::<DefaultHasher>::with_capacity(2048);
    let batch: Vec<u32> = (0..1500).collect();
    for item in &batch {
        assert!(cf.add(item).is_ok());
    }
    assert_eq!(cf.len(), batch.len());
    // Odd positions from the back, then even positions from the front.
    for item in batch.iter().rev().filter(|item| **item % 2 == 1) {
        assert!(cf.delete(item));
    }
    for item in batch.iter().filter(|item| **item % 2 == 0) {
        assert!(cf.delete(item));
    }
    assert_eq!(cf.len(), 0);
    assert!(cf.is_empty());
    assert_eq!(stored(&cf.export()), 0);
}

#[test]
fn memory_usage_counts_the_buckets() {
    let small = CuckooFilter::<DefaultHasher>::with_capacity(4);
    let large = CuckooFilter::<DefaultHasher>::with_capacity(4096);
    let own = std::mem::size_of::<CuckooFilter<DefaultHasher>>();
    let each = std::mem::size_of::<cuckoofilter::bucket::Bucket>();
    assert_eq!(small.memory_usage(), own + each);
    assert_eq!(large.memory_usage(), own + 1024 * each);
    // No less than a byte for every slot.
    assert!(each >= 4);
    assert!(small.memory_usage() >= small.export().len());
    assert!(large.memory_usage() >= large.export().len());
}

#[test]
fn error_has_a_name_and_a_description() {
    let error = CuckooError::NotEnoughSpace;
    assert_eq!(error.name(), "NotEnoughSpace");
    assert_eq!(
        error.description(),
        "Not enough space to store this item, rebucketing failed."
    );
    assert_eq!(format!("{:?}", error), "NotEnoughSpace");
}

#[test]
fn a_failed_add_loses_one_item_at_most() {
    for seed in 0..20u64 {
        let mut cf = CuckooFilter::<DefaultHasher>::with_capacity(1024);
        cf.reseed(seed);
        let mut inserted: u32 = 0;
        while cf.add(&inserted).is_ok() {
            inserted += 1;
        }
        assert_eq!(cf.len() as u32, inserted);
        assert!(inserted <= 1024);
        let missing = (0..inserted).filter(|i| !cf.contains(i)).count();
        assert!(missing <= 1);
    }
}

#[test]
fn try_with_capacity_tests_the_machine_limit() {
    let cf = CuckooFilter::<DefaultHasher>::try_with_capacity(1000);
    assert!(cf.is_some());
    let cf = cf.unwrap();
    assert_eq!(cf.len(), 0);
    assert_eq!(cf.export().len(), 1024);
    assert!(CuckooFilter::<DefaultHasher>::try_with_capacity(0).is_some());
    assert!(CuckooFilter::<DefaultHasher>::try_with_capacity((1 << 63) + 1).is_none());
    assert!(CuckooFilter::<DefaultHasher>::try_with_capacity(u64::MAX).is_none());
}

/// A filter of four buckets, all full, with sixteen different fingerprints.
fn full_filter() -> CuckooFilter<Plain> {
    let mut cf = CuckooFilter::<Plain>::with_capacity(16);
    for value in 0..16u8 {
        assert!(cf.put(Fingerprint(20 + value), usize::from(value % 4)));
    }
    cf
}

#[test]
fn a_failed_add_leaves_what_its_moves_made() {
    let mut cf = full_filter();
    let mut twin = full_filter();
    assert_eq!(cf.export(), twin.export());
    // Fingerprint 9, first bucket 0, second bucket (0 ^ 9) % 4.
    let item = 0x0900_0000u64;
    let fai = cf.fai_of(&item);
    assert_eq!((fai.fp, fai.i1 % 4, fai.i2 % 4), (Fingerprint(9), 0, 1));
    assert!(matches!(cf.add(&item), Err(CuckooError::NotEnoughSpace)));

    // The same draws, made by hand on the twin.
    let mut rng = StdRng::seed_from_u64(DEFAULT_SEED);
    let mut i = fai.random_index(rng.gen());
    let mut fp = fai.fp;
    for _ in 0..MAX_REBUCKET {
        let slot: usize = rng.gen_range(0, 4);
        let (evicted, next) = twin.kick(fp, i, slot);
        i = next;
        assert!(!twin.put(evicted, i));
        fp = evicted;
    }
    assert_eq!(cf.export(), twin.export());
    assert_eq!(cf.len(), 16);
    // One of the sixteen was traded for the new fingerprint, or the new one
    // was itself the last in flight.
    let bytes = cf.export();
    assert_eq!(stored(&bytes), 16);
    let kept = (20..36u8).filter(|value| bytes.contains(value)).count();
    let new = bytes.iter().filter(|byte| **byte == 9).count();
    assert_eq!(kept + new, 16);
    assert!(new <= 1);
}

#[test]
fn a_successful_add_ends_with_the_move_that_found_room() {
    // Buckets 0 and 1 are full, buckets 2 and 3 are empty.
    let fill = |cf: &mut CuckooFilter<Plain>| {
        for value in 0..8u8 {
            assert!(cf.put(Fingerprint(20 + value), usize::from(value % 2)));
        }
    };
    let mut cf = CuckooFilter::<Plain>::with_capacity(16);
    let mut twin = CuckooFilter::<Plain>::with_capacity(16);
    fill(&mut cf);
    fill(&mut twin);
    let item = 0x0900_0000u64;
    let fai = cf.fai_of(&item);
    assert!(cf.add(&item).is_ok());

    let mut rng = StdRng::seed_from_u64(DEFAULT_SEED);
    let mut i = fai.random_index(rng.gen());
    let mut fp = fai.fp;
    let mut moves = 0;
    loop {
        let slot: usize = rng.gen_range(0, 4);
        let (evicted, next) = twin.kick(fp, i, slot);
        moves += 1;
        i = next;
        if twin.put(evicted, i) {
            break;
        }
        fp = evicted;
    }
    assert!(moves >= 1 && moves <= MAX_REBUCKET);
    assert_eq!(cf.export(), twin.export());
    assert_eq!(cf.len(), 9);
    assert_eq!(twin.len(), 9);
    assert!(cf.contains(&item));
}

#[test]
fn the_first_move_makes_room_where_every_alternate_has_it() {
    // Buckets 0 and 1 hold fingerprints whose alternates are buckets 2 and
    // 3, which are empty: whatever is drawn, one move is enough.
    for seed in 0..50u64 {
        let mut cf = CuckooFilter::<Plain>::with_capacity(16);
        cf.reseed(seed);
        for k in 0..4 {
            assert!(cf.put(Fingerprint(6), 4 * k)); // bucket 0, alternate 2
            assert!(cf.put(Fingerprint(2), 4 * k + 1)); // bucket 1, alternate 3
        }
        // Fingerprint 5 with buckets 0 and 1.
        assert!(cf.add(&0x0500_0000u64).is_ok());
        assert_eq!(cf.len(), 9);
        let bytes = cf.export();
        assert_eq!(stored(&bytes[0..8]), 8);
        assert_eq!(stored(&bytes[8..16]), 1);
    }
}
