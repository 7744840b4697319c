use cacher::CacheError;
use cacher::RandomCacher;

#[test]
fn gap_then_fill_releases_everything() {
    let mut rc = RandomCacher::new(0);
    assert_eq!(rc.append(5, b"world").unwrap(), None);
    assert_eq!(rc.append(0, b"hello").unwrap(), Some(b"helloworld".to_vec()));
    assert_eq!(rc.get_sequence(), 10);
}

#[test]
fn merge_bridges_a_chain() {
    let mut rc = RandomCacher::new(0);
    assert_eq!(rc.append(0, b"AB").unwrap(), Some(b"AB".to_vec()));
    assert_eq!(rc.get_sequence(), 2);
    assert_eq!(rc.append(4, b"E").unwrap(), None);
    // "CD" abuts the waiting "E": the merge releases the whole chain.
    assert_eq!(rc.append(2, b"CD").unwrap(), Some(b"CDE".to_vec()));
    assert_eq!(rc.get_sequence(), 5);
}

#[test]
fn overlapping_writes_later_wins() {
    let mut rc = RandomCacher::new(0);
    assert_eq!(rc.append(2, b"cde").unwrap(), None);
    assert_eq!(rc.append(1, b"BCD").unwrap(), None);
    assert_eq!(rc.append(0, b"a").unwrap(), Some(b"aBCDe".to_vec()));
    assert_eq!(rc.get_sequence(), 5);
}

#[test]
fn out_of_order_stream_reassembles() {
    let mut rc = RandomCacher::new(40);
    let mut released = Vec::new();
    // "the quick brown fox" delivered as four out-of-order fragments.
    let stream = b"the quick brown fox";
    for (start, end) in [(10usize, 16usize), (4, 10), (16, 19), (0, 4)] {
        if let Some(run) = rc
            .append(40 + start as u32, &stream[start..end])
            .unwrap()
        {
            released.extend_from_slice(&run);
        }
    }
    assert_eq!(released, stream.to_vec());
    assert_eq!(rc.get_sequence(), 40 + stream.len() as u32);
}

#[test]
fn stale_append_is_a_no_op() {
    let mut rc = RandomCacher::new(1000);
    // Distance from 1000 back to 900 wraps to nearly 2^32: out of window.
    assert_eq!(rc.append(900, b"zz").unwrap(), None);
    assert_eq!(rc.get_sequence(), 1000);
    assert_eq!(rc.get_remaining_size(), 65535);
    assert_eq!(rc.append(1000, b"ab").unwrap(), Some(b"ab".to_vec()));
}

#[test]
fn duplicate_of_released_data_is_stale() {
    let mut rc = RandomCacher::new(0);
    assert_eq!(rc.append(0, b"ab").unwrap(), Some(b"ab".to_vec()));
    // The same fragment again now lies behind the release point.
    assert_eq!(rc.append(0, b"ab").unwrap(), None);
    assert_eq!(rc.get_sequence(), 2);
}

#[test]
fn release_across_sequence_wraparound() {
    let start = u32::MAX - 5;
    let mut rc = RandomCacher::new(start);
    // Ends 9 bytes past `start`, past the 32-bit boundary.
    assert_eq!(rc.append(start.wrapping_add(3), b"defghi").unwrap(), None);
    assert_eq!(rc.append(start, b"abc").unwrap(), Some(b"abcdefghi".to_vec()));
    assert_eq!(rc.get_sequence(), 3);
    // The re-based cache keeps working past the wraparound.
    assert_eq!(rc.append(4, b"k").unwrap(), None);
    assert_eq!(rc.append(3, b"j").unwrap(), Some(b"jk".to_vec()));
    assert_eq!(rc.get_sequence(), 5);
}

#[test]
fn remaining_size_tracks_span_and_growth() {
    let mut rc = RandomCacher::new(0);
    assert_eq!(rc.get_remaining_size(), 65535);
    // An unreleased write holds a span and grows the ring once needed.
    assert_eq!(rc.append(100_000, &vec![5u8; 100]).unwrap(), None);
    assert_eq!(rc.get_remaining_size(), 30_972);
}

#[test]
fn write_past_maximum_capacity_fails() {
    let mut rc = RandomCacher::new(0);
    // Within the acceptance window but beyond any reachable capacity.
    assert_eq!(
        rc.append(4_000_000, b"x").unwrap_err(),
        CacheError::CapacityExhausted
    );
    // The failed append left the cache unchanged.
    assert_eq!(rc.get_sequence(), 0);
    assert_eq!(rc.get_remaining_size(), 65535);
}

#[test]
fn empty_write_releases_nothing() {
    let mut rc = RandomCacher::new(0);
    assert_eq!(rc.append(0, b"").unwrap(), None);
    assert_eq!(rc.get_sequence(), 0);
    // A zero-length write at a forward offset still extends the span.
    assert_eq!(rc.append(5, b"").unwrap(), None);
    assert_eq!(rc.get_remaining_size(), 65531);
}

#[test]
fn release_only_up_to_the_next_gap() {
    let mut rc = RandomCacher::new(0);
    assert_eq!(rc.append(3, b"d").unwrap(), None);
    assert_eq!(rc.append(0, b"ab").unwrap(), Some(b"ab".to_vec()));
    assert_eq!(rc.get_sequence(), 2);
    // The byte at 3 is still waiting for the byte at 2.
    assert_eq!(rc.append(2, b"c").unwrap(), Some(b"cd".to_vec()));
    assert_eq!(rc.get_sequence(), 4);
}

#[test]
fn wrapped_writes_release_across_the_array_end() {
    let mut rc = RandomCacher::new(0);
    // Release most of the initial capacity so the head moves forward.
    assert!(rc.append(0, &vec![1u8; 60_000]).unwrap().is_some());
    assert_eq!(rc.get_sequence(), 60_000);
    // Two adjacent pending fragments whose bytes wrap past the array end.
    assert_eq!(rc.append(60_005, &vec![2u8; 10_000]).unwrap(), None);
    assert_eq!(rc.append(70_005, &vec![3u8; 10_000]).unwrap(), None);
    // Filling the gap releases everything, spanning the old array end.
    let run = rc.append(60_000, &vec![4u8; 5]).unwrap().unwrap();
    assert_eq!(run.len(), 20_005);
    assert_eq!(run[..5], vec![4u8; 5][..]);
    assert_eq!(run[5], 2);
    assert_eq!(run[10_004], 2);
    assert_eq!(run[10_005], 3);
    assert_eq!(run[20_004], 3);
    assert_eq!(rc.get_sequence(), 80_005);
}

#[test]
fn growth_preserves_pending_bytes_past_a_moved_head() {
    let mut rc = RandomCacher::new(0);
    assert!(rc.append(0, &vec![1u8; 60_000]).unwrap().is_some());
    // A pending fragment written across the array end...
    assert_eq!(rc.append(60_005, &vec![2u8; 10_000]).unwrap(), None);
    // ...must survive the growth this far write forces.
    assert_eq!(rc.append(120_005, &vec![3u8; 10_000]).unwrap(), None);
    let run = rc.append(60_000, &vec![4u8; 5]).unwrap().unwrap();
    assert_eq!(run.len(), 10_005);
    assert_eq!(run[..5], vec![4u8; 5][..]);
    assert_eq!(run[5], 2);
    assert_eq!(run[10_004], 2);
    assert_eq!(rc.get_sequence(), 70_005);
}
