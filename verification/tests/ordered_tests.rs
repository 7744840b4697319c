use cacher::CacheError;
use cacher::Cacher;

#[test]
fn append_then_get() {
    let mut c = Cacher::new(0);
    c.append(b"hello").unwrap();
    assert_eq!(c.get_size(), 5);
    assert_eq!(c.get(5).unwrap(), b"hello".to_vec());
}

#[test]
fn invalidate_then_get() {
    let mut c = Cacher::new(0);
    c.append(b"hello").unwrap();
    c.invalidate_to(3);
    assert_eq!(c.get_sequence(), 3);
    assert_eq!(c.get_size(), 2);
    assert_eq!(c.get(2).unwrap(), b"lo".to_vec());
}

#[test]
fn round_trip_across_appends() {
    let mut c = Cacher::new(7);
    c.append(b"abc").unwrap();
    c.append(b"defg").unwrap();
    assert_eq!(c.get_size(), 7);
    assert_eq!(c.get(5).unwrap(), b"abcde".to_vec());
    assert_eq!(c.get_all().unwrap(), b"abcdefg".to_vec());
    assert_eq!(c.get_sequence(), 7);
}

#[test]
fn get_zero_is_empty() {
    let c = Cacher::new(0);
    assert_eq!(c.get(0).unwrap(), Vec::<u8>::new());
}

#[test]
fn get_too_much_is_insufficient_data() {
    let mut c = Cacher::new(0);
    c.append(b"ab").unwrap();
    assert_eq!(c.get(3).unwrap_err(), CacheError::InsufficientData);
}

#[test]
fn invalidate_past_everything_empties() {
    let mut c = Cacher::new(100);
    c.append(b"ab").unwrap();
    c.invalidate_to(105);
    assert_eq!(c.get_sequence(), 105);
    assert_eq!(c.get_size(), 0);
}

#[test]
fn stale_invalidate_is_a_no_op() {
    let mut c = Cacher::new(1000);
    c.append(b"xyz").unwrap();
    // Distance from 1000 back to 900 wraps to nearly 2^32: out of window.
    c.invalidate_to(900);
    assert_eq!(c.get_sequence(), 1000);
    assert_eq!(c.get_size(), 3);
    assert_eq!(c.get_all().unwrap(), b"xyz".to_vec());
}

#[test]
fn invalidate_across_sequence_wraparound() {
    let mut c = Cacher::new(u32::MAX - 1);
    c.append(b"hello").unwrap();
    // 2 is 4 positions past u32::MAX - 1 in the wrapping sequence space.
    c.invalidate_to(2);
    assert_eq!(c.get_sequence(), 2);
    assert_eq!(c.get_size(), 1);
    assert_eq!(c.get_all().unwrap(), b"o".to_vec());
}

#[test]
fn growth_past_initial_capacity() {
    let mut c = Cacher::new(0);
    c.append(&vec![7u8; 600_000]).unwrap();
    c.append(&vec![9u8; 400_000]).unwrap();
    assert_eq!(c.get_size(), 1_000_000);
    let all = c.get_all().unwrap();
    assert_eq!(all[599_999], 7);
    assert_eq!(all[600_000], 9);
}

#[test]
fn growth_past_maximum_capacity_fails() {
    let mut c = Cacher::new(0);
    assert_eq!(
        c.append(&vec![0u8; 1_048_577]).unwrap_err(),
        CacheError::CapacityExhausted
    );
    // The failed append left the cache unchanged.
    assert_eq!(c.get_size(), 0);
    c.append(&vec![1u8; 600_000]).unwrap();
    assert_eq!(
        c.append(&vec![2u8; 600_000]).unwrap_err(),
        CacheError::CapacityExhausted
    );
    assert_eq!(c.get_size(), 600_000);
}

#[test]
fn ring_reuse_after_invalidation() {
    let mut c = Cacher::new(0);
    // Fill most of the initial capacity, release it, and wrap the tail.
    c.append(&vec![1u8; 60_000]).unwrap();
    c.invalidate_to(50_000);
    c.append(&vec![2u8; 50_000]).unwrap();
    assert_eq!(c.get_size(), 60_000);
    let all = c.get_all().unwrap();
    assert_eq!(all[9_999], 1);
    assert_eq!(all[10_000], 2);
    assert_eq!(all[59_999], 2);
}

#[test]
fn growth_copies_a_wrapped_ring() {
    let mut c = Cacher::new(0);
    c.append(&vec![1u8; 60_000]).unwrap();
    c.invalidate_to(30_000);
    // The tail wraps past the end of the backing array.
    c.append(&vec![2u8; 30_000]).unwrap();
    // This append forces a growth that must re-linearize the wrapped data.
    c.append(&vec![3u8; 20_000]).unwrap();
    assert_eq!(c.get_size(), 80_000);
    let all = c.get_all().unwrap();
    assert_eq!(all[29_999], 1);
    assert_eq!(all[30_000], 2);
    assert_eq!(all[59_999], 2);
    assert_eq!(all[60_000], 3);
    assert_eq!(all[79_999], 3);
}
