use cuckoofilter::bucket::{Bucket, Fingerprint, BUCKET_SIZE, FINGERPRINT_SIZE};

#[test]
fn constants_have_their_values() {
    assert_eq!(BUCKET_SIZE, 4);
    assert_eq!(FINGERPRINT_SIZE, 1);
}

#[test]
fn fingerprint_refuses_the_reserved_byte() {
    assert!(Fingerprint::from_data([0]).is_none());
    assert_eq!(Fingerprint::from_data([1]), Some(Fingerprint(1)));
    assert_eq!(Fingerprint::from_data([255]), Some(Fingerprint(255)));
}

#[test]
fn new_bucket_is_empty() {
    let bucket = Bucket::new();
    assert!(bucket.buffer.is_empty());
    assert!(!bucket.contains(Fingerprint(1)));
    assert_eq!(bucket.get_fingerprint_index(Fingerprint(1)), None);
}

#[test]
fn insert_fails_only_when_full() {
    let mut bucket = Bucket::new();
    for value in 1..=4u8 {
        assert!(bucket.insert(Fingerprint(value)));
    }
    assert_eq!(bucket.buffer.len(), BUCKET_SIZE);
    assert!(!bucket.insert(Fingerprint(5)));
    assert_eq!(
        bucket.buffer,
        vec![Fingerprint(1), Fingerprint(2), Fingerprint(3), Fingerprint(4)]
    );
}

#[test]
fn insert_keeps_duplicates() {
    let mut bucket = Bucket::new();
    assert!(bucket.insert(Fingerprint(9)));
    assert!(bucket.insert(Fingerprint(9)));
    assert_eq!(bucket.buffer, vec![Fingerprint(9), Fingerprint(9)]);
    assert!(bucket.delete(Fingerprint(9)));
    assert_eq!(bucket.buffer, vec![Fingerprint(9)]);
    assert!(bucket.delete(Fingerprint(9)));
    assert!(bucket.buffer.is_empty());
    assert!(!bucket.delete(Fingerprint(9)));
}

#[test]
fn index_is_that_of_the_first_occurrence() {
    let mut bucket = Bucket::new();
    bucket.insert(Fingerprint(3));
    bucket.insert(Fingerprint(8));
    bucket.insert(Fingerprint(8));
    assert_eq!(bucket.get_fingerprint_index(Fingerprint(3)), Some(0));
    assert_eq!(bucket.get_fingerprint_index(Fingerprint(8)), Some(1));
    assert_eq!(bucket.get_fingerprint_index(Fingerprint(4)), None);
    assert!(bucket.contains(Fingerprint(8)));
    assert!(!bucket.contains(Fingerprint(4)));
}

#[test]
fn delete_moves_the_last_into_the_gap() {
    let mut bucket = Bucket::new();
    for value in [10u8, 20, 30, 40] {
        bucket.insert(Fingerprint(value));
    }
    assert!(bucket.delete(Fingerprint(20)));
    assert_eq!(
        bucket.buffer,
        vec![Fingerprint(10), Fingerprint(40), Fingerprint(30)]
    );
    assert!(!bucket.delete(Fingerprint(20)));
    assert_eq!(bucket.buffer.len(), 3);
    assert!(bucket.delete(Fingerprint(30)));
    assert_eq!(bucket.buffer, vec![Fingerprint(10), Fingerprint(40)]);
}

#[test]
fn slots_are_read_and_replaced() {
    let mut bucket = Bucket::new();
    bucket.insert(Fingerprint(1));
    bucket.insert(Fingerprint(2));
    assert_eq!(bucket.slot_at(1), Fingerprint(2));
    assert_eq!(bucket.replace_at(1, Fingerprint(7)), Fingerprint(2));
    assert_eq!(bucket.slot_at(1), Fingerprint(7));
    assert_eq!(bucket.slot_at(0), Fingerprint(1));
    assert_eq!(bucket.buffer.len(), 2);
}

#[test]
fn clone_copies_the_fingerprints() {
    let mut bucket = Bucket::new();
    bucket.insert(Fingerprint(4));
    bucket.insert(Fingerprint(2));
    let mut copy = bucket.clone();
    assert_eq!(copy.buffer, vec![Fingerprint(4), Fingerprint(2)]);
    assert!(copy.delete(Fingerprint(4)));
    assert_eq!(bucket.buffer, vec![Fingerprint(4), Fingerprint(2)]);
    assert_eq!(copy.buffer, vec![Fingerprint(2)]);
}
