use elastic_hashing::ConfigurationError;
use elastic_hashing::ElasticHashing;

#[test]
fn test_bucket_size() {
    let hash = ElasticHashing::new(10);
    assert_eq!(hash.bucket_count(), 3);
    assert_eq!(hash.get_bucket(0).len(), 5);
    assert_eq!(hash.get_bucket(1).len(), 3);
    assert_eq!(hash.get_bucket(2).len(), 2);
}

#[test]
fn test_phi() {
    assert_eq!(ElasticHashing::phi(1, 1), 13);
    assert_eq!(ElasticHashing::phi(2, 3), 122);
    assert_eq!(ElasticHashing::phi(3, 5), 475);
    assert_eq!(ElasticHashing::phi(15, 7), 0b11111101111);
    assert_eq!(
        ElasticHashing::phi(1024, 1023),
        0b11111111111111111111010000000000
    );
}

#[test]
fn construct_zero_capacity_fails() {
    assert_eq!(
        ElasticHashing::construct(0).unwrap_err(),
        ConfigurationError
    );
}

#[test]
fn construct_positive_capacity_succeeds() {
    let table = ElasticHashing::construct(1).unwrap();
    assert_eq!(table.bucket_count(), 1);
    assert_eq!(table.get_bucket(0).len(), 1);
    let table = ElasticHashing::construct(10).unwrap();
    assert_eq!(table.size(), 10);
    assert_eq!(table.bucket_count(), 3);
}

#[test]
fn bucket_sizes_sum_to_capacity() {
    for n in 1..=128usize {
        let table = ElasticHashing::new(n);
        let count = table.bucket_count();
        let mut total = 0usize;
        let mut previous = usize::MAX;
        for i in 0..count {
            let len = table.get_bucket(i).len();
            assert!(len >= 1, "empty bucket at capacity {n}");
            assert!(len <= previous, "sizes grow at capacity {n}");
            previous = len;
            total += len;
        }
        assert_eq!(total, n, "sizes do not sum to capacity {n}");
    }
}

#[test]
fn capacity_ten_layout_and_out_of_range_view() {
    let table = ElasticHashing::new(10);
    assert_eq!(table.bucket_count(), 3);
    assert_eq!(table.get_bucket(0).len(), 5);
    assert_eq!(table.get_bucket(1).len(), 3);
    assert_eq!(table.get_bucket(2).len(), 2);
    assert!(table.get_bucket(3).is_empty());
}

#[test]
fn out_of_range_views_never_panic() {
    let mut table = ElasticHashing::new(5);
    for i in 2..40usize {
        assert!(table.get_bucket(i).is_empty());
        assert!(table.get_bucket_mut(i).is_empty());
    }
    assert!(table.get_bucket(usize::MAX).is_empty());
    assert!(table.get_bucket_mut(usize::MAX).is_empty());
}

#[test]
fn writes_through_mutable_view_are_seen() {
    let mut table = ElasticHashing::new(10);
    {
        let bucket = table.get_bucket_mut(0);
        bucket[0] = 7;
        bucket[4] = -3;
    }
    {
        let bucket = table.get_bucket_mut(2);
        bucket[1] = 99;
    }
    assert_eq!(table.get_bucket(0)[0], 7);
    assert_eq!(table.get_bucket(0)[4], -3);
    assert_eq!(table.get_bucket(2)[1], 99);
    assert_eq!(table.get_bucket(1), &[0, 0, 0]);
}

#[test]
fn new_table_slots_are_empty() {
    let table = ElasticHashing::new(17);
    for i in 0..table.bucket_count() {
        assert!(table.get_bucket(i).iter().all(|&slot| slot == 0));
    }
}

#[test]
fn hash_key_is_deterministic() {
    assert_eq!(ElasticHashing::hash_key(42), ElasticHashing::hash_key(42));
    assert_eq!(ElasticHashing::hash_key(0), ElasticHashing::hash_key(0));
    assert_eq!(
        ElasticHashing::hash_key(i32::MIN),
        ElasticHashing::hash_key(i32::MIN)
    );
}

#[test]
fn hash_key_really_hashes() {
    // phi(1, 1) == 13: were each hash value the key itself, key 1 would map
    // to exactly 13.
    assert_ne!(ElasticHashing::hash_key(1), 13);
    assert_ne!(ElasticHashing::hash_key(1), ElasticHashing::hash_key(2));
}

#[test]
fn phi_distinguishes_pairs() {
    assert_ne!(ElasticHashing::phi(1, 2), ElasticHashing::phi(1, 3));
    assert_ne!(ElasticHashing::phi(2, 2), ElasticHashing::phi(3, 2));
    assert_ne!(ElasticHashing::phi(7, 1), ElasticHashing::phi(1, 7));
}

#[test]
fn phi_is_order_sensitive() {
    assert_ne!(ElasticHashing::phi(1, 2), ElasticHashing::phi(2, 1));
    assert_ne!(ElasticHashing::phi(3, 5), ElasticHashing::phi(5, 3));
    assert_ne!(ElasticHashing::phi(1024, 1023), ElasticHashing::phi(1023, 1024));
}
