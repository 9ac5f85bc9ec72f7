use apogee::cache::EphemerisCache;

fn make_coeffs(value: f64, len: usize) -> [Vec<f64>; 3] {
    [vec![value; len], vec![value; len], vec![value; len]]
}

/// A body state: NAIF ID, position and velocity.
type State = (i32, [f64; 3], [f64; 3]);

fn make_state(naif_id: i32, x: f64, y: f64, z: f64) -> State {
    (naif_id, [x, y, z], [0.0, 0.0, 0.0])
}

#[test]
fn test_record_cache_basic() {
    let mut cache: EphemerisCache<[Vec<f64>; 3], State> = EphemerisCache::new(2);
    assert!(cache.get_record(10, 0).is_none());

    cache.put_record(10, 0, make_coeffs(1.0, 4));
    assert_eq!(cache.record_count(), 1);

    let rec = cache.get_record(10, 0).unwrap();
    assert!((rec[0][0] - 1.0).abs() <= 1e-12);
}

#[test]
fn test_record_cache_eviction() {
    let mut cache: EphemerisCache<[Vec<f64>; 3], State> = EphemerisCache::new(2);
    cache.put_record(10, 0, make_coeffs(1.0, 4));
    cache.put_record(10, 1, make_coeffs(2.0, 4));
    // Access the first entry to make it most recently used.
    let _ = cache.get_record(10, 0);
    // Insert a third entry; the least recently used (10, 1) is evicted.
    cache.put_record(10, 2, make_coeffs(3.0, 4));

    assert!(cache.get_record(10, 0).is_some());
    assert!(cache.get_record(10, 1).is_none());
    assert!(cache.get_record(10, 2).is_some());
}

#[test]
fn test_state_cache_basic() {
    let mut cache: EphemerisCache<[Vec<f64>; 3], State> = EphemerisCache::new(2);
    assert!(cache.get_state(499, 0).is_none());

    cache.put_state(499, 0, make_state(499, 1.0, 2.0, 3.0));
    let state = cache.get_state(499, 0).unwrap();
    assert!((state.1[0] - 1.0).abs() <= 1e-12);
}

#[test]
fn test_state_cache_eviction() {
    let mut cache: EphemerisCache<[Vec<f64>; 3], State> = EphemerisCache::new(2);
    cache.put_state(499, 0, make_state(499, 1.0, 0.0, 0.0));
    cache.put_state(500, 0, make_state(500, 2.0, 0.0, 0.0));
    cache.put_state(501, 0, make_state(501, 3.0, 0.0, 0.0));

    assert!(cache.get_state(499, 0).is_none());
    assert!(cache.get_state(500, 0).is_some());
    assert!(cache.get_state(501, 0).is_some());
}

#[test]
fn cache_replace_clear_and_capacity() {
    let mut cache: EphemerisCache<u32, u32> = EphemerisCache::new(2);
    assert_eq!(cache.capacity(), 2);
    cache.put_record(1, 1, 10);
    cache.put_record(1, 1, 11);
    assert_eq!(cache.record_count(), 1);
    assert_eq!(cache.get_record(1, 1), Some(&11));
    cache.put_state(3, 1_000, 7);
    assert_eq!(cache.state_count(), 1);
    assert_eq!(cache.get_state(3, 1_001), None);
    cache.clear();
    assert_eq!(cache.record_count(), 0);
    assert_eq!(cache.state_count(), 0);
}

#[test]
fn cache_zero_capacity_keeps_one_entry() {
    let mut cache: EphemerisCache<u32, u32> = EphemerisCache::new(0);
    cache.put_record(1, 1, 10);
    assert_eq!(cache.record_count(), 1);
    cache.put_record(1, 2, 20);
    assert_eq!(cache.record_count(), 1);
    assert_eq!(cache.get_record(1, 1), None);
    assert_eq!(cache.get_record(1, 2), Some(&20));
}
