use bytes::Bytes;
use coalescing_store::store::CoalescingObjectStore;
use futures::executor::block_on;
use futures::future::ready;
use std::ops::Range;
use std::sync::Mutex;

fn object(len: usize) -> Vec<u8> {
    (0..len).map(|i| (i * 7 % 251) as u8).collect()
}

/// Reads `ranges` of `object` with the given gap. Gives the fetches that were made and the bytes.
fn read(object: &[u8], ranges: &[Range<u64>], gap: &str) -> (Vec<Range<u64>>, Vec<Bytes>) {
    let store = CoalescingObjectStore::new((), Some(gap));
    let fetches: Mutex<Vec<Range<u64>>> = Mutex::new(Vec::new());
    let fetch = |range: Range<u64>| {
        fetches.lock().unwrap().push(range.clone());
        let end = (range.end as usize).min(object.len());
        ready(Ok::<Bytes, String>(Bytes::copy_from_slice(
            &object[range.start as usize..end],
        )))
    };
    let parts = block_on(store.get_ranges(ranges, fetch)).unwrap();
    let made = fetches.lock().unwrap().clone();
    (made, parts)
}

fn check_bytes(object: &[u8], ranges: &[Range<u64>], parts: &[Bytes]) {
    assert_eq!(parts.len(), ranges.len());
    for (range, part) in ranges.iter().zip(parts) {
        let end = (range.end as usize).min(object.len());
        assert_eq!(&part[..], &object[range.start as usize..end]);
    }
}

#[test]
fn nothing_requested_makes_no_fetch() {
    let (fetches, parts) = read(&object(10), &[], "5");
    assert_eq!(fetches, Vec::<Range<u64>>::new());
    assert!(parts.is_empty());
}

#[test]
fn contiguous_ranges_are_fetched_as_one() {
    let data = object(100);
    let ranges = [10..20, 20..35, 35..50];
    let (fetches, parts) = read(&data, &ranges, "0");
    assert_eq!(fetches, vec![10..50]);
    check_bytes(&data, &ranges, &parts);
}

#[test]
fn contiguous_ranges_are_fetched_as_one_in_any_order() {
    let data = object(100);
    let ranges = [35..50, 10..20, 20..35];
    let (fetches, parts) = read(&data, &ranges, "0");
    assert_eq!(fetches, vec![10..50]);
    check_bytes(&data, &ranges, &parts);
}

#[test]
fn a_range_that_ends_before_it_starts_is_for_the_store_to_refuse() {
    let store = CoalescingObjectStore::new((), Some("5"));
    let ranges = [Range { start: 100, end: 90 }, 0..4];
    let fetch = |range: Range<u64>| {
        ready(if range.start <= range.end {
            Ok(Bytes::from(object(range.end as usize)).slice(range.start as usize..))
        } else {
            Err("end before start")
        })
    };
    assert_eq!(block_on(store.get_ranges(&ranges, fetch)), Err("end before start"));
}

#[test]
fn nothing_is_fetched_until_the_outcome_is_awaited() {
    let store = CoalescingObjectStore::new((), Some("5"));
    let fetches: Mutex<u64> = Mutex::new(0);
    let ranges = [0..4];
    let outcome = store.get_ranges(&ranges, |_range: Range<u64>| {
        *fetches.lock().unwrap() += 1;
        ready(Ok::<Bytes, String>(Bytes::from_static(b"abcd")))
    });
    assert_eq!(*fetches.lock().unwrap(), 0);
    assert_eq!(block_on(outcome), Ok(vec![Bytes::from_static(b"abcd")]));
    assert_eq!(*fetches.lock().unwrap(), 1);
}

#[test]
fn a_gap_as_wide_as_allowed_is_bridged() {
    let data = object(100);
    let ranges = [0..10, 15..20];
    let (fetches, parts) = read(&data, &ranges, "5");
    assert_eq!(fetches, vec![0..20]);
    check_bytes(&data, &ranges, &parts);
}

#[test]
fn a_wider_gap_is_not_bridged() {
    let data = object(100);
    let ranges = [0..10, 15..20];
    let (fetches, parts) = read(&data, &ranges, "4");
    assert_eq!(fetches, vec![0..10, 15..20]);
    check_bytes(&data, &ranges, &parts);
}

#[test]
fn results_keep_the_order_of_the_request() {
    let data = object(100);
    let ranges = [60..70, 0..10, 64..66, 12..13, 0..3];
    let (fetches, parts) = read(&data, &ranges, "2");
    assert_eq!(fetches, vec![0..13, 60..70]);
    check_bytes(&data, &ranges, &parts);
}

#[test]
fn a_wider_gap_takes_fewer_fetches() {
    let data = object(200);
    let ranges = [0..10, 12..20, 40..50, 90..91];
    let mut count = ranges.len() + 1;
    for gap in ["0", "2", "20", "40"] {
        let (fetches, parts) = read(&data, &ranges, gap);
        check_bytes(&data, &ranges, &parts);
        assert!(fetches.len() < count);
        count = fetches.len();
    }
    assert_eq!(count, 1);
}

#[test]
fn an_object_that_ends_within_a_range_gives_what_it_has() {
    let data = object(25);
    let ranges = [0..10, 12..40];
    let (fetches, parts) = read(&data, &ranges, "5");
    assert_eq!(fetches, vec![0..40]);
    check_bytes(&data, &ranges, &parts);
    assert_eq!(parts[1].len(), 13);
}

#[test]
fn empty_and_nested_and_equal_ranges() {
    let data = object(50);
    let ranges = [5..5, 3..20, 7..9, 3..20, 20..20];
    let (fetches, parts) = read(&data, &ranges, "0");
    assert_eq!(fetches, vec![3..20]);
    check_bytes(&data, &ranges, &parts);
}

#[test]
fn the_first_failing_fetch_in_order_is_the_outcome() {
    let store = CoalescingObjectStore::new((), Some("0"));
    let ranges = [40..50, 20..30, 0..10];
    let fetch = |range: Range<u64>| {
        ready(if range.start == 0 {
            Ok(Bytes::from_static(b"0123456789"))
        } else {
            Err(range.start)
        })
    };
    assert_eq!(block_on(store.get_ranges(&ranges, fetch)), Err(20));
}

#[test]
fn many_sets_of_ranges() {
    // A small generator of numbers, so that each run reads the same ranges.
    let mut state: u64 = 12345;
    let mut next = |bound: u64| {
        state = state.wrapping_mul(6364136223846793005).wrapping_add(1442695040888963407);
        (state >> 33) % bound
    };
    let data = object(300);
    for _ in 0..500 {
        let n = next(12);
        let ranges: Vec<Range<u64>> = (0..n)
            .map(|_| {
                let start = next(250);
                start..start + next(40)
            })
            .collect();
        let gap = next(30);
        let (fetches, parts) = read(&data, &ranges, &gap.to_string());
        check_bytes(&data, &ranges, &parts);
        assert!(fetches.len() <= ranges.len());
        for pair in fetches.windows(2) {
            assert!(pair[0].end + gap < pair[1].start);
        }
        for range in &ranges {
            assert_eq!(
                fetches.iter().filter(|f| f.start <= range.start && range.end <= f.end).count(),
                1
            );
        }
        for fetch in &fetches {
            assert!(ranges.iter().any(|r| r.start == fetch.start));
            assert!(ranges.iter().any(|r| r.end == fetch.end));
        }
    }
}
